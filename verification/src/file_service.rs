//! File operations on the catalog: create, read, move, copy, delete,
//! list. Each mutation returns the log records to append and leaves the
//! catalog exactly as its specification function says.
//!
//! The byte store is the caller's: these operations decide and account;
//! the caller writes, renames and unlinks the blobs they name.

use vstd::prelude::*;

use crate::catalog::{Catalog, CatalogRec, lemma_sum_lower_bound};
use crate::error::AppError;
use crate::models::{FileMeta, FileRec, RepoMeta, RepoRec};
use crate::recovery::{sat_add, sat_sub, saturating_add_u64, saturating_sub_u64};
use crate::wal::{WalEntry, WalRec};
use vstd::string::*;

verus! {

/// The catalog after one live file deletion: the record leaves the
/// index, and the repository's accounting is decremented with
/// saturation. A missing repository or record changes nothing.
pub open spec fn spec_delete_file(c: CatalogRec, id: u128, p: Seq<char>, now: i64) -> CatalogRec {
    if !c.repos.contains_key(id) {
        c
    } else if !(c.files.contains_key(id) && c.files[id].contains_key(p)) {
        c
    } else {
        let sz = c.files[id][p].size_bytes;
        let r0 = c.repos[id];
        CatalogRec {
            repos: c.repos.insert(
                id,
                RepoRec {
                    current_size_bytes: sat_sub(r0.current_size_bytes, sz),
                    file_count: sat_sub(r0.file_count, 1),
                    updated_at: now,
                    ..r0
                },
            ),
            files: c.files.insert(id, c.files[id].remove(p)),
        }
    }
}

/// The catalog after a sequence of live deletions, in order.
pub open spec fn spec_delete_seq(c: CatalogRec, id: u128, ps: Seq<Seq<char>>, now: i64) -> CatalogRec
    decreases ps.len(),
{
    if ps.len() == 0 {
        c
    } else {
        spec_delete_seq(spec_delete_file(c, id, ps[0], now), id, ps.drop_first(), now)
    }
}

/// Delete one file: the record leaves the catalog and the repository's
/// size and count are decremented. On success the returned record is
/// the log entry to append; the caller then unlinks the blob.
pub fn delete_file(cat: &mut Catalog, repo_id: u128, rel_path: &str, now_ms: i64) -> (r: Result<
    WalEntry,
    AppError,
>)
    requires
        old(cat).wf(),
    ensures
        final(cat).wf(),
        r is Ok <==> (old(cat)@.repos.contains_key(repo_id) && old(cat).file_exists(
            repo_id,
            rel_path@,
        )),
        match r {
            Ok(e) => {
                &&& final(cat)@ == spec_delete_file(old(cat)@, repo_id, rel_path@, now_ms)
                &&& e@ == (WalRec::FileDeleted { repo_id, path: rel_path@ })
                &&& (forall|id2: u128|
                    id2 != repo_id ==> (#[trigger] final(cat).files_of(id2)) == old(cat).files_of(id2))
                &&& old(cat).accounted() ==> final(cat).accounted()
            },
            Err(e) => e is NotFound && final(cat)@ == old(cat)@ && final(cat).repos@ == old(cat).repos@ && (forall|id2: u128|
                (#[trigger] final(cat).files_of(id2)) == old(cat).files_of(id2)) && (old(cat).accounted() ==> final(cat).accounted()),
        },
{
    if cat.repo_get(repo_id).is_none() {
        return Err(AppError::NotFound(String::from_str("Repository not found")));
    }
    let ghost c0 = *cat;
    match cat.file_remove(repo_id, rel_path) {
        Some(m) => {
            let r = cat.repo_get(repo_id).unwrap();
            let mut rm = r.clone();
            rm.current_size_bytes = saturating_sub_u64(rm.current_size_bytes, m.size_bytes);
            rm.file_count = saturating_sub_u64(rm.file_count, 1);
            rm.updated_at = now_ms;
            let ghost c1 = *cat;
            let ghost rmv = rm;
            cat.repo_upsert(rm);
            let entry = WalEntry::FileDeleted { repo_id, path: String::from_str(rel_path) };
            proof {
                assert(cat@.repos =~= spec_delete_file(c0@, repo_id, rel_path@, now_ms).repos);
                assert(cat@.files =~= spec_delete_file(c0@, repo_id, rel_path@, now_ms).files);
                assert forall|id2: u128| id2 != repo_id implies (#[trigger] cat.files_of(id2))
                    == c0.files_of(id2) by {
                    assert(c1.files_of(id2) == c0.files_of(id2));
                    assert(cat.buckets@ == c1.buckets@);
                }
                assert(cat.size_of(repo_id) == c1.size_of(repo_id));
                assert(cat.count_of(repo_id) == c1.count_of(repo_id));
                if c0.accounted() {
                    lemma_delete_accounted(c0, *cat, rmv, repo_id, rel_path@, m@.size_bytes, now_ms);
                }
            }
            Ok(entry)
        },
        None => {
            proof {
                assert(cat@ =~~= c0@);
            }
            Err(AppError::NotFound(String::from_str("File not found")))
        },
    }
}

/// Deleting one more path after a run of deletions is the same as
/// appending it to the run.
pub proof fn lemma_delete_seq_snoc(c: CatalogRec, id: u128, ps: Seq<Seq<char>>, p: Seq<char>, now: i64)
    ensures
        spec_delete_seq(c, id, ps.push(p), now) == spec_delete_file(
            spec_delete_seq(c, id, ps, now),
            id,
            p,
            now,
        ),
    decreases ps.len(),
{
    if ps.len() == 0 {
        assert(ps.push(p)[0] == p);
        assert(ps.push(p).drop_first() =~= Seq::<Seq<char>>::empty());
        assert(spec_delete_seq(spec_delete_file(c, id, p, now), id, Seq::empty(), now)
            == spec_delete_file(c, id, p, now));
        assert(spec_delete_seq(c, id, ps, now) == c);
    } else {
        assert(ps.push(p)[0] == ps[0]);
        assert(ps.push(p).drop_first() =~= ps.drop_first().push(p));
        assert(spec_delete_seq(c, id, ps.push(p), now) == spec_delete_seq(
            spec_delete_file(c, id, ps[0], now),
            id,
            ps.drop_first().push(p),
            now,
        ));
        assert(spec_delete_seq(c, id, ps, now) == spec_delete_seq(
            spec_delete_file(c, id, ps[0], now),
            id,
            ps.drop_first(),
            now,
        ));
        lemma_delete_seq_snoc(spec_delete_file(c, id, ps[0], now), id, ps.drop_first(), p, now);
    }
}

/// The catalog after a read touches a file's access statistics: the
/// record's last-access time is set and its access count bumped with
/// saturation. Nothing else moves.
pub open spec fn spec_touch(c: CatalogRec, id: u128, p: Seq<char>, now: i64) -> CatalogRec {
    if c.files.contains_key(id) && c.files[id].contains_key(p) {
        let m0 = c.files[id][p];
        CatalogRec {
            repos: c.repos,
            files: c.files.insert(
                id,
                c.files[id].insert(
                    p,
                    FileRec {
                        last_accessed_at: now,
                        access_count: sat_add(m0.access_count, 1),
                        ..m0
                    },
                ),
            ),
        }
    } else {
        c
    }
}

/// Look up a file for a download: the returned record is the one that
/// was stored (its access statistics as they were), and the stored
/// record's statistics are bumped. The caller streams the blob.
pub fn download_file(cat: &mut Catalog, repo_id: u128, rel_path: &str, now_ms: i64) -> (r: Result<
    FileMeta,
    AppError,
>)
    requires
        old(cat).wf(),
    ensures
        final(cat).wf(),
        r is Ok <==> (old(cat)@.repos.contains_key(repo_id) && old(cat).file_exists(
            repo_id,
            rel_path@,
        )),
        match r {
            Ok(meta) => {
                &&& meta@ == old(cat)@.files[repo_id][rel_path@]
                &&& final(cat)@ == spec_touch(old(cat)@, repo_id, rel_path@, now_ms)
                &&& old(cat).accounted() ==> final(cat).accounted()
            },
            Err(e) => e is NotFound && final(cat)@ == old(cat)@ && final(cat).repos@ == old(cat).repos@ && (old(cat).accounted() ==> final(cat).accounted()),
        },
{
    if cat.repo_get(repo_id).is_none() {
        return Err(AppError::NotFound(String::from_str("Repository not found")));
    }
    let ghost c0 = *cat;
    let found = match cat.file_get(repo_id, rel_path) {
        Some(m) => Some(m.clone()),
        None => None,
    };
    match found {
        Some(meta) => {
            let mut bumped = meta.clone();
            bumped.last_accessed_at = now_ms;
            bumped.access_count = saturating_add_u64(bumped.access_count, 1);
            proof {
                crate::catalog::lemma_file_key(*cat, repo_id, rel_path@);
            }
            cat.file_insert(repo_id, bumped);
            proof {
                assert(cat@.files =~= spec_touch(c0@, repo_id, rel_path@, now_ms).files);
                assert forall|id2: u128| id2 != repo_id implies (#[trigger] cat.files_of(id2))
                    == c0.files_of(id2) by {}
                if c0.accounted() {
                    assert forall|j: int| 0 <= j < cat.repos@.len() implies {
                        let r2 = (#[trigger] cat.repos@[j])@;
                        r2.current_size_bytes == cat.size_of(r2.id) && r2.file_count
                            == cat.count_of(r2.id)
                    } by {
                        assert(cat.repos@[j] == c0.repos@[j]);
                        let r2 = cat.repos@[j]@;
                        if r2.id == repo_id {
                            assert(cat.size_of(repo_id) == c0.size_of(repo_id));
                            assert(cat.count_of(repo_id) == c0.count_of(repo_id));
                        } else {
                            assert(cat.files_of(r2.id) == c0.files_of(r2.id));
                        }
                    }
                }
            }
            Ok(meta)
        },
        None => Err(AppError::NotFound(String::from_str("File not found"))),
    }
}

/// Look up a file without touching its statistics or the byte store.
pub fn head_file(cat: &Catalog, repo_id: u128, rel_path: &str) -> (r: Result<FileMeta, AppError>)
    requires
        cat.wf(),
    ensures
        r is Ok <==> (cat@.repos.contains_key(repo_id) && cat.file_exists(repo_id, rel_path@)),
        match r {
            Ok(meta) => meta@ == cat@.files[repo_id][rel_path@],
            Err(e) => e is NotFound,
        },
{
    if cat.repo_get(repo_id).is_none() {
        return Err(AppError::NotFound(String::from_str("Repository not found")));
    }
    match cat.file_get(repo_id, rel_path) {
        Some(m) => Ok(m.clone()),
        None => Err(AppError::NotFound(String::from_str("File not found"))),
    }
}

/// Clamp an exact byte total into a `u64` counter.
pub open spec fn clamp_u64(x: int) -> u64 {
    if x < 0 {
        0
    } else if x > u64::MAX {
        u64::MAX
    } else {
        x as u64
    }
}

/// Clamp an exact millisecond instant into an `i64`.
pub open spec fn clamp_i64(x: int) -> i64 {
    if x > i64::MAX {
        i64::MAX
    } else if x < i64::MIN {
        i64::MIN
    } else {
        x as i64
    }
}

/// The expiry of an upload: an explicit TTL wins over the repository
/// default; no TTL means no expiry.
pub open spec fn expiry_of(now: i64, ttl: Option<u64>, default_ttl: Option<u64>) -> Option<i64> {
    let eff = if ttl is Some {
        ttl
    } else {
        default_ttl
    };
    match eff {
        Some(s) => Some(clamp_i64(now + (s as int) * 1000)),
        None => None,
    }
}

/// Compute the expiry instant of an upload.
pub fn compute_expires_at(now_ms: i64, ttl: Option<u64>, default_ttl: Option<u64>) -> (r: Option<
    i64,
>)
    ensures
        r == expiry_of(now_ms, ttl, default_ttl),
{
    let eff = match ttl {
        Some(s) => Some(s),
        None => default_ttl,
    };
    match eff {
        Some(s) => {
            let x: i128 = (now_ms as i128) + (s as i128) * 1000;
            if x > i64::MAX as i128 {
                Some(i64::MAX)
            } else if x < i64::MIN as i128 {
                Some(i64::MIN)
            } else {
                Some(x as i64)
            }
        },
        None => None,
    }
}

/// The catalog after a successful upload commit: the record enters the
/// index and the repository's accounting moves by the size difference.
pub open spec fn spec_upload_commit(c: CatalogRec, meta: FileRec, now: i64) -> CatalogRec {
    let id = meta.repo_id;
    let t0 = if c.files.contains_key(id) {
        c.files[id]
    } else {
        Map::<Seq<char>, FileRec>::empty()
    };
    let existed = t0.contains_key(meta.path);
    let old_sz: int = if existed {
        t0[meta.path].size_bytes as int
    } else {
        0
    };
    let repos = if c.repos.contains_key(id) {
        let r0 = c.repos[id];
        c.repos.insert(
            id,
            RepoRec {
                current_size_bytes: clamp_u64(
                    r0.current_size_bytes - old_sz + meta.size_bytes,
                ),
                file_count: if existed {
                    r0.file_count
                } else {
                    sat_add(r0.file_count, 1)
                },
                updated_at: now,
                ..r0
            },
        )
    } else {
        c.repos
    };
    CatalogRec { repos, files: c.files.insert(id, t0.insert(meta.path, meta)) }
}

/// What one upload did: the stored record or the error, the log records
/// to append, and the paths of any evicted files.
pub struct UploadOutcome {
    pub result: Result<FileMeta, AppError>,
    pub wal: Vec<WalEntry>,
    pub evicted: Vec<String>,
}

/// Store a file: validate the size against the upload cap, make room
/// under the repository's ceiling by eviction when needed, then record
/// the file with its digest and content type. The upload proceeds
/// whenever the eviction freed at least the overrun; when the freed
/// room came out of the path's own old version the stored total may
/// end over the ceiling, which the background sweep later corrects.
/// Evictions persist even when the upload itself is then refused. The
/// caller writes the blob and removes the victims' blobs.
#[verifier::rlimit(100)]
#[verifier::spinoff_prover]
pub fn upload_file(
    cat: &mut Catalog,
    repo_id: u128,
    rel_path: &str,
    data: &[u8],
    ttl_seconds: Option<u64>,
    now_ms: i64,
    max_upload_size: u64,
) -> (r: UploadOutcome)
    requires
        old(cat).wf(),
        old(cat).accounted(),
    ensures
        final(cat).wf(),
        final(cat).accounted(),
        ({
            let c0 = old(cat);
            let evicted_paths = crate::text::str_views(r.evicted@);
            let cmid = spec_delete_seq(c0@, repo_id, evicted_paths, now_ms);
            if !c0@.repos.contains_key(repo_id) {
                &&& r.result is Err && r.result->Err_0 is NotFound
                &&& final(cat)@ == c0@
                &&& r.wal@.len() == 0
                &&& r.evicted@.len() == 0
            } else if data@.len() > max_upload_size {
                &&& r.result is Err && r.result->Err_0 is PayloadTooLarge
                &&& final(cat)@ == c0@
                &&& r.wal@.len() == 0
                &&& r.evicted@.len() == 0
            } else {
                let current = c0@.repos[repo_id].current_size_bytes as int;
                let maxsz = c0@.repos[repo_id].max_size_bytes as int;
                let existing = c0.existing_size(repo_id, rel_path@);
                let projected = current - existing + data@.len();
                let cur_mid = cmid.repos[repo_id].current_size_bytes as int;
                let existing_mid = if cmid.files.contains_key(repo_id)
                    && cmid.files[repo_id].contains_key(rel_path@) {
                    cmid.files[repo_id][rel_path@].size_bytes as int
                } else {
                    0
                };
                let projected_mid = cur_mid - existing_mid + data@.len();
                &&& (projected <= maxsz ==> r.result is Ok && r.evicted@.len() == 0)
                &&& (projected > maxsz ==> {
                    // what the eviction freed, read off the size delta
                    let freed = current - cur_mid;
                    &&& 0 <= freed <= u64::MAX
                    &&& crate::eviction::eviction_outcome(
                        c0.files_of(repo_id),
                        evicted_paths,
                        freed as u64,
                        clamp_u64(projected - maxsz),
                        now_ms,
                    )
                    &&& (r.result is Ok <==> (freed >= clamp_u64(projected - maxsz)
                        && projected_mid <= u64::MAX))
                })
                &&& (r.result is Ok ==> {
                    let meta = r.result->Ok_0;
                    &&& meta@.repo_id == repo_id
                    &&& meta@.path == rel_path@
                    &&& meta@.size_bytes == data@.len()
                    &&& meta@.etag == crate::digest::etag_of(data@)
                    &&& meta@.content_type == crate::digest::mime_of(rel_path@)
                    &&& meta@.created_at == now_ms
                    &&& meta@.updated_at == now_ms
                    &&& meta@.last_accessed_at == now_ms
                    &&& meta@.access_count == 0
                    &&& meta@.expires_at == expiry_of(
                        now_ms,
                        ttl_seconds,
                        c0@.repos[repo_id].default_ttl_seconds,
                    )
                    &&& final(cat)@ == spec_upload_commit(cmid, meta@, now_ms)
                    &&& r.wal@.map_values(|e: WalEntry| e@) == r.evicted@.map_values(
                        |s: String| WalRec::FileDeleted { repo_id, path: s@ },
                    ).push(
                        WalRec::FileCreated {
                            repo_id,
                            path: meta@.path,
                            size_bytes: meta@.size_bytes,
                            etag: meta@.etag,
                            content_type: meta@.content_type,
                            created_at: now_ms,
                            expires_at: meta@.expires_at,
                        },
                    )
                })
                &&& (r.result is Err ==> {
                    &&& r.result->Err_0 is PayloadTooLarge
                    &&& final(cat)@ == cmid
                    &&& r.wal@.map_values(|e: WalEntry| e@) == r.evicted@.map_values(
                        |s: String| WalRec::FileDeleted { repo_id, path: s@ },
                    )
                })
            }
        }),
{
    let ghost c0 = *cat;
    let default_ttl = match cat.repo_get(repo_id) {
        Some(rm) => rm.default_ttl_seconds,
        None => {
            return UploadOutcome {
                result: Err(AppError::NotFound(String::from_str("Repository not found"))),
                wal: Vec::new(),
                evicted: Vec::new(),
            };
        },
    };
    let file_size = data.len() as u64;
    if file_size > max_upload_size {
        return UploadOutcome {
            result: Err(
                AppError::PayloadTooLarge(String::from_str("File size exceeds max upload size")),
            ),
            wal: Vec::new(),
            evicted: Vec::new(),
        };
    }
    let (current, maxsz) = {
        let rm = cat.repo_get(repo_id).unwrap();
        (rm.current_size_bytes, rm.max_size_bytes)
    };
    let existing: u64 = match cat.file_get(repo_id, rel_path) {
        Some(m) => {
            proof {
                crate::catalog::lemma_file_key(*cat, repo_id, rel_path@);
            }
            m.size_bytes
        },
        None => 0,
    };
    let projected: i128 = current as i128 - existing as i128 + file_size as i128;
    let mut wal: Vec<WalEntry> = Vec::new();
    let mut evicted: Vec<String> = Vec::new();
    let mut sufficient = true;
    let ghost mut freed_g: u64 = 0;
    proof {
        assert(crate::text::str_views(evicted@) =~= Seq::<Seq<char>>::empty());
    }
    if projected > maxsz as i128 {
        let needed128: i128 = projected - maxsz as i128;
        let needed: u64 = if needed128 > u64::MAX as i128 {
            u64::MAX
        } else {
            needed128 as u64
        };
        proof {
            assert(needed == clamp_u64(
                (current as int) - c0.existing_size(repo_id, rel_path@) + data@.len() - (
                maxsz as int),
            ));
        }
        let outcome = crate::eviction::evict_bytes(cat, repo_id, needed, now_ms);
        wal = outcome.wal;
        evicted = outcome.victims;
        sufficient = outcome.freed >= needed;
        proof {
            // the eviction was asked for exactly the overrun, and what it
            // chose is pinned for the caller
            freed_g = outcome.freed;
            assert(crate::eviction::eviction_outcome(
                c0.files_of(repo_id),
                crate::text::str_views(evicted@),
                outcome.freed,
                needed,
                now_ms,
            ));
            assert(cat@.repos[repo_id].current_size_bytes == current - outcome.freed);
        }
    }
    let ghost evicted_paths = crate::text::str_views(evicted@);
    let ghost cmid = *cat;
    proof {
        assert(cmid@ == spec_delete_seq(c0@, repo_id, evicted_paths, now_ms));
    }
    // read the post-eviction state for the commit arithmetic
    let cur2 = cat.repo_get(repo_id).unwrap().current_size_bytes;
    let existing2: u64 = match cat.file_get(repo_id, rel_path) {
        Some(m) => {
            proof {
                crate::catalog::lemma_file_key(*cat, repo_id, rel_path@);
            }
            m.size_bytes
        },
        None => 0,
    };
    let was_present = cat.file_get(repo_id, rel_path).is_some();
    let projected2: i128 = cur2 as i128 - existing2 as i128 + file_size as i128;
    proof {
        // the exec readings agree with the specification's view of the
        // post-eviction state
        assert(cur2 == cmid@.repos[repo_id].current_size_bytes);
        assert(existing2 as int == (if cmid@.files.contains_key(repo_id)
            && cmid@.files[repo_id].contains_key(rel_path@) {
            cmid@.files[repo_id][rel_path@].size_bytes as int
        } else {
            0
        }));
        if projected > maxsz as i128 {
            let needed_spec = clamp_u64(
                ((current as int) - c0.existing_size(repo_id, rel_path@) + data@.len()) - (
                maxsz as int),
            );
            assert(crate::eviction::eviction_outcome(
                c0.files_of(repo_id),
                crate::text::str_views(evicted@),
                freed_g,
                needed_spec,
                now_ms,
            ));
            assert(cmid@.repos[repo_id].current_size_bytes == current - freed_g);
            assert(sufficient == (freed_g >= needed_spec));
        } else {
            assert(cmid@ == c0@);
            assert(sufficient);
            assert(cur2 == current && existing2 == existing);
            assert(projected2 == projected);
        }
    }
    // the upload is refused only when eviction could not free the
    // overrun, or the resulting byte total cannot be counted in 64 bits
    if !sufficient || projected2 > u64::MAX as i128 {
        proof {
            assert(projected > maxsz as i128);
        }
        return UploadOutcome {
            result: Err(
                AppError::PayloadTooLarge(String::from_str("Repository size limit exceeded")),
            ),
            wal,
            evicted,
        };
    }
    // admit: digest, content type, expiry
    let etag = crate::digest::compute_etag(data);
    let content_type = crate::digest::guess_content_type(rel_path);
    let expires_at = compute_expires_at(now_ms, ttl_seconds, default_ttl);
    let meta = FileMeta {
        repo_id,
        path: String::from_str(rel_path),
        size_bytes: file_size,
        etag,
        content_type,
        created_at: now_ms,
        updated_at: now_ms,
        last_accessed_at: now_ms,
        access_count: 0,
        expires_at,
    };
    let stored = meta.clone();
    cat.file_insert(repo_id, stored);
    let ghost c3 = *cat;
    // repository accounting
    let rm2 = cat.repo_get(repo_id).unwrap();
    let mut newrm = rm2.clone();
    let newcur128: i128 = cur2 as i128 - existing2 as i128 + file_size as i128;
    newrm.current_size_bytes = if newcur128 < 0 {
        0
    } else if newcur128 > u64::MAX as i128 {
        u64::MAX
    } else {
        newcur128 as u64
    };
    if !was_present {
        newrm.file_count = saturating_add_u64(newrm.file_count, 1);
    }
    newrm.updated_at = now_ms;
    let ghost newrmv = newrm;
    cat.repo_upsert(newrm);
    wal.push(
        WalEntry::FileCreated {
            repo_id,
            path: meta.path.clone(),
            size_bytes: file_size,
            etag: meta.etag.clone(),
            content_type: meta.content_type.clone(),
            created_at: now_ms,
            expires_at,
        },
    );
    proof {
        lemma_upload_commit(cmid, c3, *cat, newrmv, meta@, repo_id, rel_path@, now_ms);
        assert(wal@.map_values(|e: WalEntry| e@) =~= evicted@.map_values(
            |s: String| WalRec::FileDeleted { repo_id, path: s@ },
        ).push(
            WalRec::FileCreated {
                repo_id,
                path: meta@.path,
                size_bytes: meta@.size_bytes,
                etag: meta@.etag,
                content_type: meta@.content_type,
                created_at: now_ms,
                expires_at: meta@.expires_at,
            },
        ));
    }
    UploadOutcome { result: Ok(meta), wal, evicted }
}

/// The exec commit path lands exactly on `spec_upload_commit`, and
/// keeps the accounting invariant.
proof fn lemma_upload_commit(
    cmid: Catalog,
    c3: Catalog,
    c4: Catalog,
    m: RepoMeta,
    meta: FileRec,
    repo_id: u128,
    p: Seq<char>,
    now: i64,
)
    requires
        cmid.wf(),
        c3.wf(),
        c4.wf(),
        cmid.accounted(),
        cmid@.repos.contains_key(repo_id),
        meta.repo_id == repo_id,
        meta.path == p,
        // the file insert step
        c3@.repos == cmid@.repos,
        c3.repos@ == cmid.repos@,
        c3@.files == cmid@.files.insert(
            repo_id,
            (if cmid@.files.contains_key(repo_id) {
                cmid@.files[repo_id]
            } else {
                Map::<Seq<char>, FileRec>::empty()
            }).insert(p, meta),
        ),
        c3.size_of(repo_id) == cmid.size_of(repo_id) - cmid.existing_size(repo_id, p)
            + meta.size_bytes,
        c3.count_of(repo_id) == cmid.count_of(repo_id) + (if cmid.file_exists(repo_id, p) {
            0int
        } else {
            1int
        }),
        forall|id2: u128| id2 != repo_id ==> (#[trigger] c3.files_of(id2)) == cmid.files_of(id2),
        // the repository update step
        m@.id == repo_id,
        m@.current_size_bytes == clamp_u64(
            cmid@.repos[repo_id].current_size_bytes - cmid.existing_size(repo_id, p)
                + meta.size_bytes,
        ),
        m@.file_count == (if cmid.file_exists(repo_id, p) {
            cmid@.repos[repo_id].file_count
        } else {
            sat_add(cmid@.repos[repo_id].file_count, 1)
        }),
        m@.updated_at == now,
        m@.max_size_bytes == cmid@.repos[repo_id].max_size_bytes,
        m@.name == cmid@.repos[repo_id].name,
        m@.created_at == cmid@.repos[repo_id].created_at,
        m@.last_accessed_at == cmid@.repos[repo_id].last_accessed_at,
        m@.default_ttl_seconds == cmid@.repos[repo_id].default_ttl_seconds,
        m@.tags == cmid@.repos[repo_id].tags,
        c4@.repos == c3@.repos.insert(repo_id, m@),
        c4@.files == c3@.files,
        c4.buckets@ == c3.buckets@,
        exists|i: int|
            0 <= i < c3.repos@.len() && (#[trigger] c3.repos@[i]@.id) == repo_id && c4.repos@
                == c3.repos@.update(i, m),
        // the committed total fits in the counter
        cmid@.repos[repo_id].current_size_bytes - cmid.existing_size(repo_id, p)
            + meta.size_bytes <= u64::MAX,
    ensures
        c4@ == spec_upload_commit(cmid@, meta, now),
        c4.accounted(),
{
    // the clamped total is exact
    if cmid.file_exists(repo_id, p) {
        crate::catalog::lemma_file_key(cmid, repo_id, p);
    } else {
        assert(cmid.existing_size(repo_id, p) == 0);
    }
    crate::catalog::lemma_sum_nonneg(cmid.files_of(repo_id));
    crate::catalog::lemma_repos_contains(cmid.repos@, repo_id);
    let ri = choose|ri: int|
        0 <= ri < cmid.repos@.len() && (#[trigger] cmid.repos@[ri]@.id) == repo_id;
    crate::catalog::lemma_repos_index(cmid.repos@, ri);
    assert(cmid@.repos[repo_id].current_size_bytes == cmid.size_of(repo_id));
    assert(cmid.existing_size(repo_id, p) <= cmid.size_of(repo_id));
    assert(c4@.repos =~= spec_upload_commit(cmid@, meta, now).repos);
    assert(c4@.files =~= spec_upload_commit(cmid@, meta, now).files);
    // accounting
    let i = choose|i: int|
        0 <= i < c3.repos@.len() && (#[trigger] c3.repos@[i]@.id) == repo_id && c4.repos@
            == c3.repos@.update(i, m);
    crate::catalog::lemma_repos_index(c3.repos@, i);
    assert(c3.repos@[i]@ == cmid@.repos[repo_id]);
    assert forall|j: int| 0 <= j < c4.repos@.len() implies {
        let r2 = (#[trigger] c4.repos@[j])@;
        r2.current_size_bytes == c4.size_of(r2.id) && r2.file_count == c4.count_of(r2.id)
    } by {
        if j == i {
            assert(c4.repos@[j]@ == m@);
            assert(c4.size_of(repo_id) == c3.size_of(repo_id));
            assert(c4.count_of(repo_id) == c3.count_of(repo_id));
            crate::catalog::lemma_count_bound(c3, repo_id);
            assert(c3.count_of(repo_id) <= usize::MAX);
        } else {
            assert(c4.repos@[j] == c3.repos@[j]);
            let r2 = c4.repos@[j]@;
            if r2.id == repo_id {
                assert(c3.repos@[j]@.id == c3.repos@[i]@.id);
                if j < i {
                    assert(c3.repos@[j]@.id != c3.repos@[i]@.id);
                } else {
                    assert(c3.repos@[i]@.id != c3.repos@[j]@.id);
                }
            }
            assert(c4.files_of(r2.id) == c3.files_of(r2.id));
            assert(c3.files_of(r2.id) == cmid.files_of(r2.id));
        }
    }
}

/// Rename a file within its repository: the record is re-keyed to the
/// destination and its update time set; sizes do not change. The
/// destination must be free. The caller renames the blob.
pub fn move_file(
    cat: &mut Catalog,
    repo_id: u128,
    source: &str,
    destination: &str,
    now_ms: i64,
) -> (r: Result<(FileMeta, WalEntry), AppError>)
    requires
        old(cat).wf(),
    ensures
        final(cat).wf(),
        r is Ok <==> (old(cat)@.repos.contains_key(repo_id) && old(cat).file_exists(
            repo_id,
            source@,
        ) && !old(cat).file_exists(repo_id, destination@)),
        match r {
            Ok((meta, e)) => {
                &&& meta@ == (FileRec {
                    path: destination@,
                    updated_at: now_ms,
                    ..old(cat)@.files[repo_id][source@]
                })
                &&& e@ == (WalRec::FileMoved {
                    repo_id,
                    source: source@,
                    destination: destination@,
                    updated_at: now_ms,
                })
                &&& final(cat)@ == crate::recovery::spec_apply(old(cat)@, e@)
                &&& old(cat).accounted() ==> final(cat).accounted()
            },
            Err(e) => {
                &&& (e is NotFound <==> (!old(cat)@.repos.contains_key(repo_id) || !old(cat).file_exists(repo_id, source@)))
                &&& (e is NotFound || e is Conflict)
                &&& final(cat)@ == old(cat)@
                &&& final(cat).repos@ == old(cat).repos@
                &&& (forall|id2: u128|
                    (#[trigger] final(cat).files_of(id2)) == old(cat).files_of(id2))
                &&& (old(cat).accounted() ==> final(cat).accounted())
            },
        },
{
    if cat.repo_get(repo_id).is_none() {
        return Err(AppError::NotFound(String::from_str("Repository not found")));
    }
    if cat.file_get(repo_id, source).is_none() {
        return Err(AppError::NotFound(String::from_str("Source file not found")));
    }
    if cat.file_get(repo_id, destination).is_some() {
        return Err(AppError::Conflict(String::from_str("Destination already exists")));
    }
    let ghost c0 = *cat;
    proof {
        crate::catalog::lemma_file_key(*cat, repo_id, source@);
    }
    let m = cat.file_remove(repo_id, source).unwrap();
    let ghost c1 = *cat;
    let mut m1 = m;
    m1.path = String::from_str(destination);
    m1.updated_at = now_ms;
    let meta = m1.clone();
    cat.file_insert(repo_id, m1);
    let entry = WalEntry::FileMoved {
        repo_id,
        source: String::from_str(source),
        destination: String::from_str(destination),
        updated_at: now_ms,
    };
    proof {
        let mrec = FileRec { path: destination@, updated_at: now_ms, ..c0@.files[repo_id][source@] };
        assert(cat@.files =~= c0@.files.insert(
            repo_id,
            c0@.files[repo_id].remove(source@).insert(destination@, mrec),
        ));
        assert(cat@.repos == c0@.repos);
        assert(cat@ == crate::recovery::spec_apply(c0@, entry@));
        if c0.accounted() {
            // the byte total is restored: what left at the source returns at
            // the destination
            assert(cat.size_of(repo_id) == c0.size_of(repo_id));
            assert(cat.count_of(repo_id) == c0.count_of(repo_id));
            assert forall|j: int| 0 <= j < cat.repos@.len() implies {
                let r2 = (#[trigger] cat.repos@[j])@;
                r2.current_size_bytes == cat.size_of(r2.id) && r2.file_count
                    == cat.count_of(r2.id)
            } by {
                assert(cat.repos@[j] == c0.repos@[j]);
                let r2 = cat.repos@[j]@;
                if r2.id != repo_id {
                    assert(cat.files_of(r2.id) == c1.files_of(r2.id));
                    assert(c1.files_of(r2.id) == c0.files_of(r2.id));
                }
            }
        }
    }
    Ok((meta, entry))
}

/// Copy a file within its repository: a second record with the same
/// bytes, digest and expiry, under the destination path. The ceiling is
/// checked and copies never trigger eviction. The caller copies the
/// blob.
pub fn copy_file(
    cat: &mut Catalog,
    repo_id: u128,
    source: &str,
    destination: &str,
    now_ms: i64,
) -> (r: Result<(FileMeta, WalEntry), AppError>)
    requires
        old(cat).wf(),
        old(cat).accounted(),
    ensures
        final(cat).wf(),
        final(cat).accounted(),
        r is Ok <==> (old(cat)@.repos.contains_key(repo_id) && old(cat).file_exists(
            repo_id,
            source@,
        ) && !old(cat).file_exists(repo_id, destination@) && old(cat)@.repos[repo_id].current_size_bytes
            + old(cat)@.files[repo_id][source@].size_bytes <= old(cat)@.repos[repo_id].max_size_bytes),
        match r {
            Ok((meta, e)) => {
                &&& meta@ == (FileRec {
                    repo_id,
                    path: destination@,
                    created_at: now_ms,
                    updated_at: now_ms,
                    last_accessed_at: now_ms,
                    access_count: 0,
                    ..old(cat)@.files[repo_id][source@]
                })
                &&& e@ == (WalRec::FileCreated {
                    repo_id,
                    path: destination@,
                    size_bytes: meta@.size_bytes,
                    etag: meta@.etag,
                    content_type: meta@.content_type,
                    created_at: now_ms,
                    expires_at: meta@.expires_at,
                })
                &&& final(cat)@ == spec_upload_commit(old(cat)@, meta@, now_ms)
            },
            Err(e) => {
                &&& (e is NotFound <==> (!old(cat)@.repos.contains_key(repo_id) || !old(cat).file_exists(repo_id, source@)))
                &&& (e is NotFound || e is Conflict || e is PayloadTooLarge)
                &&& (e is Conflict <==> (old(cat)@.repos.contains_key(repo_id) && old(cat).file_exists(repo_id, source@) && old(cat).file_exists(repo_id, destination@)))
                &&& (e is PayloadTooLarge ==> old(cat)@.repos.contains_key(repo_id) && old(cat).file_exists(repo_id, source@) && !old(cat).file_exists(repo_id, destination@)
                    && old(cat)@.repos[repo_id].current_size_bytes
                    + old(cat)@.files[repo_id][source@].size_bytes > old(cat)@.repos[repo_id].max_size_bytes)
                &&& final(cat)@ == old(cat)@
            },
        },
{
    if cat.repo_get(repo_id).is_none() {
        return Err(AppError::NotFound(String::from_str("Repository not found")));
    }
    let src_meta = match cat.file_get(repo_id, source) {
        Some(m) => m.clone(),
        None => {
            return Err(AppError::NotFound(String::from_str("Source file not found")));
        },
    };
    if cat.file_get(repo_id, destination).is_some() {
        return Err(AppError::Conflict(String::from_str("Destination already exists")));
    }
    let (current, maxsz) = {
        let rm = cat.repo_get(repo_id).unwrap();
        (rm.current_size_bytes, rm.max_size_bytes)
    };
    if current as u128 + src_meta.size_bytes as u128 > maxsz as u128 {
        return Err(
            AppError::PayloadTooLarge(
                String::from_str("Repository size limit would be exceeded by copy"),
            ),
        );
    }
    let ghost c0 = *cat;
    proof {
        crate::catalog::lemma_file_key(*cat, repo_id, source@);
    }
    let mut m1 = src_meta;
    m1.repo_id = repo_id;
    m1.path = String::from_str(destination);
    m1.created_at = now_ms;
    m1.updated_at = now_ms;
    m1.last_accessed_at = now_ms;
    m1.access_count = 0;
    let meta = m1.clone();
    let stored = m1;
    cat.file_insert(repo_id, stored);
    let ghost c3 = *cat;
    let rm2 = cat.repo_get(repo_id).unwrap();
    let mut newrm = rm2.clone();
    newrm.current_size_bytes = current + meta.size_bytes;
    newrm.file_count = saturating_add_u64(newrm.file_count, 1);
    newrm.updated_at = now_ms;
    let ghost newrmv = newrm;
    cat.repo_upsert(newrm);
    let entry = WalEntry::FileCreated {
        repo_id,
        path: meta.path.clone(),
        size_bytes: meta.size_bytes,
        etag: meta.etag.clone(),
        content_type: meta.content_type.clone(),
        created_at: now_ms,
        expires_at: meta.expires_at,
    };
    proof {
        lemma_upload_commit(c0, c3, *cat, newrmv, meta@, repo_id, destination@, now_ms);
    }
    Ok((meta, entry))
}

/// `p` begins with `pre`.
pub open spec fn starts_with(p: Seq<char>, pre: Seq<char>) -> bool {
    p.len() >= pre.len() && p.subrange(0, pre.len() as int) == pre
}

/// `s` with its leading slashes removed.
pub open spec fn trim_slashes(s: Seq<char>) -> Seq<char>
    decreases s.len(),
{
    if s.len() > 0 && s[0] == '/' {
        trim_slashes(s.drop_first())
    } else {
        s
    }
}

/// Whether a listing keeps the path: it must begin with the prefix when
/// one is given, and a non-recursive listing keeps only direct children
/// (no further separator once the prefix and leading slashes are
/// stripped).
pub open spec fn list_match(p: Seq<char>, prefix: Option<Seq<char>>, recursive: bool) -> bool {
    let rel = match prefix {
        Some(pre) => p.skip(pre.len() as int),
        None => p,
    };
    &&& match prefix {
        Some(pre) => starts_with(p, pre),
        None => true,
    }
    &&& (recursive || !trim_slashes(rel).contains('/'))
}

proof fn lemma_trim_reach(s: Seq<char>, j: int)
    requires
        0 <= j <= s.len(),
        forall|k: int| 0 <= k < j ==> s[k] == '/',
        j == s.len() || s[j] != '/',
    ensures
        trim_slashes(s) == s.skip(j),
    decreases j,
{
    if j == 0 {
        assert(s.skip(0) =~= s);
    } else {
        assert(s[0] == '/');
        assert(s.drop_first() =~= s.skip(1));
        assert forall|k: int| 0 <= k < j - 1 implies s.skip(1)[k] == '/' by {}
        lemma_trim_reach(s.skip(1), j - 1);
        assert(s.skip(1).skip(j - 1) =~= s.skip(j));
    }
}

/// Decide `list_match` for one path.
pub fn matches_listing(path: &str, prefix: &Option<String>, recursive: bool) -> (r: bool)
    ensures
        r == list_match(
            path@,
            match prefix {
                Some(p) => Some(p@),
                None => None,
            },
            recursive,
        ),
{
    let n = path.unicode_len();
    let k: usize = match prefix {
        Some(pre) => {
            let pn = pre.unicode_len();
            if pn > n {
                proof {
                    assert(!starts_with(path@, pre@));
                }
                return false;
            }
            let mut i: usize = 0;
            while i < pn
                invariant
                    i <= pn <= n,
                    pn == pre@.len(),
                    n == path@.len(),
                    prefix is Some && prefix->0@ == pre@,
                    forall|j: int| 0 <= j < i ==> path@[j] == pre@[j],
                decreases pn - i,
            {
                if path.get_char(i) != pre.as_str().get_char(i) {
                    proof {
                        assert(path@.subrange(0, pre@.len() as int)[i as int] != pre@[i as int]);
                        assert(!starts_with(path@, pre@));
                    }
                    return false;
                }
                i += 1;
            }
            proof {
                assert(path@.subrange(0, pre@.len() as int) =~= pre@);
                assert(starts_with(path@, pre@));
            }
            pn
        },
        None => 0,
    };
    proof {
        assert(match prefix {
            Some(pre2) => starts_with(path@, pre2@) && k == pre2@.len(),
            None => k == 0,
        });
    }
    if recursive {
        return true;
    }
    // skip leading separators of the remainder, then look for another one
    let mut j: usize = k;
    while j < n && path.get_char(j) == '/'
        invariant
            k <= j <= n,
            n == path@.len(),
            forall|t: int| k <= t < j ==> path@[t] == '/',
        decreases n - j,
    {
        j += 1;
    }
    proof {
        let rel = path@.skip(k as int);
        assert forall|t: int| 0 <= t < j - k implies rel[t] == '/' by {}
        lemma_trim_reach(rel, j - k);
        assert(rel.skip(j - k) =~= path@.skip(j as int));
    }
    let mut t: usize = j;
    while t < n
        invariant
            j <= t <= n,
            n == path@.len(),
            !recursive,
            forall|u: int| j <= u < t ==> path@[u] != '/',
            trim_slashes(path@.skip(k as int)) == path@.skip(j as int),
            match prefix {
                Some(pre) => starts_with(path@, pre@) && k == pre@.len(),
                None => k == 0,
            },
        decreases n - t,
    {
        if path.get_char(t) == '/' {
            proof {
                assert(path@.skip(j as int)[t - j] == '/');
                assert(path@.skip(j as int).contains('/'));
                assert(path@.skip(0) =~= path@);
            }
            return false;
        }
        t += 1;
    }
    proof {
        assert(path@.skip(0) =~= path@);
        if path@.skip(j as int).contains('/') {
            let u = choose|u: int| 0 <= u < path@.skip(j as int).len() && path@.skip(j as int)[u]
                == '/';
            assert(path@[j + u] == '/');
        }
    }
    true
}

/// Sorted ascending by path.
pub open spec fn sorted_paths(s: Seq<FileRec>) -> bool {
    forall|i: int, j: int|
        0 <= i < j < s.len() ==> crate::text::lex_le(
            (#[trigger] s[i]).path,
            (#[trigger] s[j]).path,
        )
}

/// Decide `lex_le(a@.path, b@.path)`.
fn path_le_exec(a: &FileMeta, b: &FileMeta) -> (r: bool)
    ensures
        r == crate::text::lex_le(a@.path, b@.path),
{
    proof {
        crate::text::lemma_lex_total(a@.path, b@.path);
        if crate::text::lex_lt(b@.path, a@.path) && crate::text::lex_lt(a@.path, b@.path) {
            crate::text::lemma_lex_lt_trans(a@.path, b@.path, a@.path);
        }
        crate::text::lemma_lex_lt_irrefl(a@.path);
    }
    !crate::text::str_lt(b.path.as_str(), a.path.as_str())
}

/// Sort a collection of records ascending by path.
fn sort_by_path(v: Vec<FileMeta>) -> (r: Vec<FileMeta>)
    ensures
        sorted_paths(r@.map_values(|m: FileMeta| m@)),
        r@.map_values(|m: FileMeta| m@).to_multiset() == v@.map_values(|m: FileMeta| m@)
            .to_multiset(),
{
    let ghost views = v@.map_values(|m: FileMeta| m@);
    let mut out: Vec<FileMeta> = Vec::new();
    let mut i: usize = 0;
    proof {
        broadcast use vstd::seq_lib::group_to_multiset_ensures;

        assert(out@.map_values(|m: FileMeta| m@) =~= Seq::<FileRec>::empty());
        assert(views.take(0) =~= Seq::<FileRec>::empty());
    }
    while i < v.len()
        invariant
            i <= v@.len(),
            views == v@.map_values(|m: FileMeta| m@),
            sorted_paths(out@.map_values(|m: FileMeta| m@)),
            out@.map_values(|m: FileMeta| m@).to_multiset() == views.take(i as int).to_multiset(),
        decreases v@.len() - i,
    {
        let item = v[i].clone();
        let ghost os = out@.map_values(|m: FileMeta| m@);
        let mut pos: usize = 0;
        while pos < out.len() && path_le_exec(&out[pos], &item)
            invariant
                pos <= out@.len(),
                os == out@.map_values(|m: FileMeta| m@),
                forall|k: int| 0 <= k < pos ==> crate::text::lex_le((#[trigger] os[k]).path, item@.path),
            decreases out@.len() - pos,
        {
            pos += 1;
        }
        proof {
            if pos < os.len() {
                crate::text::lemma_lex_total(os[pos as int].path, item@.path);
            }
        }
        out.insert(pos, item);
        proof {
            broadcast use vstd::seq_lib::group_to_multiset_ensures;

            let ns = out@.map_values(|m: FileMeta| m@);
            assert(ns =~= os.insert(pos as int, item@));
            assert forall|x: int, y: int|
                0 <= x < y < ns.len() implies crate::text::lex_le(
                (#[trigger] ns[x]).path,
                (#[trigger] ns[y]).path,
            ) by {
                if y < pos {
                } else if x < pos && y == pos {
                } else if x < pos && y > pos {
                    assert(ns[y] == os[y - 1]);
                } else if x == pos {
                    assert(ns[x] == item@);
                    assert(ns[y] == os[y - 1]);
                    if pos < os.len() {
                        assert(crate::text::lex_le(item@.path, os[pos as int].path));
                        if y - 1 > pos {
                            crate::text::lemma_lex_le_trans(
                                item@.path,
                                os[pos as int].path,
                                os[y - 1].path,
                            );
                        }
                    }
                } else {
                    assert(ns[x] == os[x - 1]);
                    assert(ns[y] == os[y - 1]);
                }
            }
            assert(ns.remove(pos as int) =~= os);
            assert(ns.to_multiset().remove(item@) =~= os.to_multiset());
            assert(ns.to_multiset().contains(item@));
            assert(ns.to_multiset() =~= os.to_multiset().insert(item@));
            assert(views.take(i + 1) =~= views.take(i as int).push(views[i as int]));
            assert(item@ == views[i as int]);
        }
        i += 1;
    }
    proof {
        assert(views.take(v@.len() as int) =~= views);
    }
    out
}

/// Collect the file records that a listing shows: those matching the
/// prefix and recursion filter, sorted by path ascending, then cut to
/// the requested page.
pub fn list_files(
    cat: &Catalog,
    repo_id: u128,
    prefix: &Option<String>,
    recursive: bool,
    page: u64,
    per_page: u64,
) -> (r: Result<Vec<FileMeta>, AppError>)
    requires
        cat.wf(),
        1 <= page,
        1 <= per_page <= crate::MAX_PER_PAGE,
    ensures
        r is Ok <==> (cat@.repos.contains_key(repo_id) && cat@.files.contains_key(repo_id)),
        match r {
            Ok(v) => exists|s: Seq<FileRec>|
                #![trigger s.len()]
                {
                    let pre = match prefix {
                        Some(p) => Some(p@),
                        None => None,
                    };
                    &&& sorted_paths(s)
                    &&& (forall|i: int|
                        0 <= i < s.len() ==> cat@.files[repo_id].contains_key(
                            (#[trigger] s[i]).path,
                        ) && s[i] == cat@.files[repo_id][s[i].path] && list_match(
                            s[i].path,
                            pre,
                            recursive,
                        ))
                    &&& (forall|p: Seq<char>|
                        cat@.files[repo_id].contains_key(p) && list_match(p, pre, recursive)
                            ==> exists|i: int| 0 <= i < s.len() && (#[trigger] s[i]).path == p)
                    &&& (forall|i: int, j: int|
                        0 <= i < j < s.len() ==> (#[trigger] s[i].path) != (
                        #[trigger] s[j].path))
                    &&& ({
                        let start = if (page - 1) * per_page <= s.len() {
                            (page - 1) * per_page
                        } else {
                            s.len() as int
                        };
                        let end = if start + per_page <= s.len() {
                            start + per_page
                        } else {
                            s.len() as int
                        };
                        v@.map_values(|m: FileMeta| m@) == s.subrange(start as int, end as int)
                    })
                },
            Err(e) => e is NotFound,
        },
{
    if cat.repo_get(repo_id).is_none() {
        return Err(AppError::NotFound(String::from_str("Repository not found")));
    }
    let ghost pre = match prefix {
        Some(p) => Some(p@),
        None => None,
    };
    let mut collected: Vec<FileMeta> = Vec::new();
    let t = match cat.table_get(repo_id) {
        None => {
            return Err(AppError::NotFound(String::from_str("Repository not found")));
        },
        Some(t) => t,
    };
    let ghost tes = t.entries@;
    let mut k: usize = 0;
    proof {
        assert(collected@.map_values(|m: FileMeta| m@) =~= Seq::<FileRec>::empty());
    }
    while k < t.entries.len()
        invariant
            cat.wf(),
            k <= tes.len(),
            tes == t.entries@,
            t.wf(),
            t.recs() == cat.files_of(repo_id),
            t@ == cat@.files[repo_id],
            cat@.files.contains_key(repo_id),
            pre == (match prefix {
                Some(p) => Some(p@),
                None => None,
            }),
            forall|x: int|
                0 <= x < collected@.len() ==> cat@.files[repo_id].contains_key(
                    (#[trigger] collected@[x])@.path,
                ) && collected@[x]@ == cat@.files[repo_id][collected@[x]@.path] && list_match(
                    collected@[x]@.path,
                    pre,
                    recursive,
                ),
            forall|x: int|
                0 <= x < collected@.len() ==> exists|y: int|
                    0 <= y < k && (#[trigger] tes[y])@ == (#[trigger] collected@[x])@,
            forall|x: int, y: int|
                0 <= x < y < collected@.len() ==> (#[trigger] collected@[x]@.path) != (
                #[trigger] collected@[y]@.path),
            forall|x: int|
                0 <= x < k && list_match((#[trigger] tes[x])@.path, pre, recursive)
                    ==> collected@.map_values(|m: FileMeta| m@).contains(tes[x]@),
        decreases tes.len() - k,
    {
        let ghost cvs0 = collected@.map_values(|m: FileMeta| m@);
        let ghost col0 = collected@;
        if matches_listing(t.entries[k].path.as_str(), prefix, recursive) {
            collected.push(t.entries[k].clone());
            proof {
                assert(collected@.map_values(|m: FileMeta| m@) =~= cvs0.push(tes[k as int]@));
                crate::catalog::lemma_table_index(tes, k as int);
                assert(collected@.map_values(|m: FileMeta| m@).contains(tes[k as int]@)) by {
                    assert(collected@.map_values(|m: FileMeta| m@).last() == tes[k as int]@);
                }
                // the new record's path is fresh among the collected ones
                assert forall|x: int, y: int|
                    0 <= x < y < collected@.len() implies (#[trigger] collected@[x]@.path) != (
                #[trigger] collected@[y]@.path) by {
                    if y == collected@.len() - 1 {
                        let yy = choose|yy: int|
                            0 <= yy < k && (#[trigger] tes[yy])@ == col0[x]@;
                        assert(tes[yy]@.path != tes[k as int]@.path);
                    }
                }
                // older matches are still collected
                assert forall|x: int|
                    0 <= x < k + 1 && list_match(
                        (#[trigger] tes[x])@.path,
                        pre,
                        recursive,
                    ) implies collected@.map_values(|m: FileMeta| m@).contains(tes[x]@) by {
                    if x < k {
                        assert(cvs0.contains(tes[x]@));
                        let w = choose|w: int| 0 <= w < cvs0.len() && cvs0[w] == tes[x]@;
                        assert(collected@.map_values(|m: FileMeta| m@)[w] == tes[x]@);
                    }
                }
            }
        }
        k += 1;
    }
    let ghost cvs = collected@.map_values(|m: FileMeta| m@);
    let sorted = sort_by_path(collected);
    let ghost s = sorted@.map_values(|m: FileMeta| m@);
    proof {
        broadcast use vstd::seq_lib::group_to_multiset_ensures;

        // membership transfers through the sort
        assert forall|x: int| 0 <= x < s.len() implies cvs.contains(#[trigger] s[x]) by {
            assert(s.contains(s[x]));
            assert(cvs.to_multiset().count(s[x]) > 0);
        }
        // each kept record carries the stored record's fields and passes the filter
        assert forall|i: int|
            0 <= i < s.len() implies cat@.files[repo_id].contains_key((#[trigger] s[i]).path)
            && s[i] == cat@.files[repo_id][s[i].path] && list_match(s[i].path, pre, recursive) by {
            assert(cvs.contains(s[i]));
            let x = choose|x: int| 0 <= x < cvs.len() && cvs[x] == s[i];
            assert(cvs[x] == collected@[x]@);
        }
        // distinct paths transfer as well
        crate::eviction::lemma_paths_distinct(cvs, s);
        // completeness: a matching stored record appears in the sorted list
        assert forall|p: Seq<char>|
            cat@.files[repo_id].contains_key(p) && list_match(p, pre, recursive) implies exists|i: int|
            0 <= i < s.len() && (#[trigger] s[i]).path == p by {
            crate::catalog::lemma_file_key(*cat, repo_id, p);
            let rec = cat@.files[repo_id][p];
            crate::catalog::lemma_table_contains(tes, p);
            let x = choose|x: int| 0 <= x < tes.len() && (#[trigger] tes[x]@.path) == p;
            crate::catalog::lemma_table_index(tes, x);
            assert(tes[x]@ == rec);
            assert(cvs.contains(rec));
            assert(s.to_multiset().count(rec) > 0);
            assert(s.contains(rec));
            let i = choose|i: int| 0 <= i < s.len() && s[i] == rec;
            assert(s[i].path == p);
        }
    }
    // page slice
    let start = crate::page_start(page, per_page, sorted.len());
    let end = if sorted.len() - start < per_page as usize {
        sorted.len()
    } else {
        start + per_page as usize
    };
    let mut out: Vec<FileMeta> = Vec::new();
    let mut k2: usize = start;
    proof {
        assert(out@.map_values(|m: FileMeta| m@) =~= s.subrange(start as int, start as int));
    }
    while k2 < end
        invariant
            start <= k2 <= end <= sorted@.len(),
            s == sorted@.map_values(|m: FileMeta| m@),
            out@.map_values(|m: FileMeta| m@) == s.subrange(start as int, k2 as int),
        decreases end - k2,
    {
        out.push(sorted[k2].clone());
        proof {
            assert(s.subrange(start as int, k2 + 1) =~= s.subrange(start as int, k2 as int).push(
                s[k2 as int],
            ));
            assert(out@.map_values(|m: FileMeta| m@) =~= s.subrange(start as int, k2 + 1));
        }
        k2 += 1;
    }
    Ok(out)
}

/// The ETag value as it appears in HTTP headers: surrounded by double
/// quotes.
pub open spec fn quoted(e: Seq<char>) -> Seq<char> {
    seq!['"'] + e + seq!['"']
}

/// Whether an `If-None-Match` header value matches a stored ETag: it
/// equals the quoted form or the bare hex.
pub open spec fn etag_match(inm: Seq<char>, etag: Seq<char>) -> bool {
    inm == quoted(etag) || inm == etag
}

/// Decide a conditional download: a matching `If-None-Match` value
/// means the caller already holds the bytes and is answered 304 with an
/// empty body.
pub fn etag_matches(inm: &str, etag: &str) -> (r: bool)
    ensures
        r == etag_match(inm@, etag@),
{
    if crate::text::str_eq(inm, etag) {
        return true;
    }
    let mut q = String::new();
    crate::text::push_char(&mut q, '"');
    let n = etag.unicode_len();
    let mut i: usize = 0;
    while i < n
        invariant
            i <= n,
            n == etag@.len(),
            q@ == seq!['"'] + etag@.subrange(0, i as int),
        decreases n - i,
    {
        crate::text::push_char(&mut q, etag.get_char(i));
        proof {
            assert(q@ =~= seq!['"'] + etag@.subrange(0, i + 1));
        }
        i += 1;
    }
    crate::text::push_char(&mut q, '"');
    proof {
        assert(etag@.subrange(0, etag@.len() as int) =~= etag@);
        assert(q@ =~= quoted(etag@));
    }
    crate::text::str_eq(inm, q.as_str())
}

/// Accounting is preserved by one deletion: the repository's stored
/// size and count move exactly with the removed record.
proof fn lemma_delete_accounted(
    c0: Catalog,
    c1: Catalog,
    m: RepoMeta,
    repo_id: u128,
    p: Seq<char>,
    sz: u64,
    now: i64,
)
    requires
        c0.wf(),
        c1.wf(),
        c0.accounted(),
        c0@.repos.contains_key(repo_id),
        c0.file_exists(repo_id, p),
        sz == c0@.files[repo_id][p].size_bytes,
        c1.size_of(repo_id) == c0.size_of(repo_id) - sz,
        c1.count_of(repo_id) == c0.count_of(repo_id) - 1,
        forall|id2: u128| id2 != repo_id ==> (#[trigger] c1.files_of(id2)) == c0.files_of(id2),
        m@.id == repo_id,
        m@.current_size_bytes == sat_sub(c0@.repos[repo_id].current_size_bytes, sz),
        m@.file_count == sat_sub(c0@.repos[repo_id].file_count, 1),
        // the repository vector changed only by the one accounting update
        exists|i: int|
            0 <= i < c0.repos@.len() && (#[trigger] c0.repos@[i]@.id) == repo_id && c1.repos@
                == c0.repos@.update(i, m),
    ensures
        c1.accounted(),
{
    let i = choose|i: int|
        0 <= i < c0.repos@.len() && (#[trigger] c0.repos@[i]@.id) == repo_id && c1.repos@
            == c0.repos@.update(i, m);
    crate::catalog::lemma_repos_index(c0.repos@, i);
    assert forall|j: int| 0 <= j < c1.repos@.len() implies {
        let r = (#[trigger] c1.repos@[j])@;
        r.current_size_bytes == c1.size_of(r.id) && r.file_count == c1.count_of(r.id)
    } by {
        if j == i {
            assert(c1.repos@[j]@ == m@);
            let r0 = c0.repos@[i]@;
            assert(r0 == c0@.repos[repo_id]);
            assert(r0.current_size_bytes == c0.size_of(repo_id));
            assert(r0.file_count == c0.count_of(repo_id));
            assert(r0.current_size_bytes >= sz) by {
                let t = crate::catalog::bucket_idx(c0.buckets@, repo_id);
                crate::catalog::lemma_buckets_contains(c0.buckets@, repo_id);
                assert(c0@.files.contains_key(repo_id));
                assert(crate::catalog::has_bucket(c0.buckets@, repo_id));
                assert(c0.buckets@[t].repo_id == repo_id);
                crate::catalog::lemma_buckets_index(c0.buckets@, t);
                assert(c0@.files[repo_id] == c0.buckets@[t].table@);
                crate::catalog::lemma_table_contains(c0.buckets@[t].table.entries@, p);
                let k = choose|k: int|
                    0 <= k < c0.buckets@[t].table.entries@.len() && (#[trigger] c0.buckets@[t].table.entries@[k]@.path) == p;
                crate::catalog::lemma_table_index(c0.buckets@[t].table.entries@, k);
                assert(c0.files_of(repo_id)[k].size_bytes == sz);
                lemma_sum_lower_bound(c0.files_of(repo_id), k);
            }
            assert(r0.file_count >= 1) by {
                assert(c0.count_of(repo_id) >= 1) by {
                    let t = crate::catalog::bucket_idx(c0.buckets@, repo_id);
                    crate::catalog::lemma_buckets_contains(c0.buckets@, repo_id);
                    assert(crate::catalog::has_bucket(c0.buckets@, repo_id));
                    assert(c0.buckets@[t].repo_id == repo_id);
                    crate::catalog::lemma_buckets_index(c0.buckets@, t);
                    crate::catalog::lemma_table_contains(c0.buckets@[t].table.entries@, p);
                }
            }
        } else {
            assert(c1.repos@[j] == c0.repos@[j]);
            let r = c1.repos@[j]@;
            if r.id == repo_id {
                assert(c0.repos@[j]@.id == c0.repos@[i]@.id);
                if j < i {
                    assert(c0.repos@[j]@.id != c0.repos@[i]@.id);
                } else {
                    assert(c0.repos@[i]@.id != c0.repos@[j]@.id);
                }
            }
            assert(c1.files_of(r.id) == c0.files_of(r.id));
        }
    }
}

} // verus!
