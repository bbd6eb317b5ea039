//! Startup recovery: replaying the write-ahead log over the catalog and
//! reconciling the catalog with the byte store.

use vstd::prelude::*;

use crate::catalog::{
    sum_sizes, Catalog, CatalogRec,
};
use crate::models::{clone_tags, FileMeta, FileRec, RepoMeta, RepoRec};
use crate::wal::{WalEntry, WalRec};

verus! {

/// Addition on byte counters that sticks at the ceiling.
pub open spec fn sat_add(a: u64, b: u64) -> u64 {
    if a + b > u64::MAX {
        u64::MAX
    } else {
        (a + b) as u64
    }
}

/// Subtraction on byte counters that sticks at zero.
pub open spec fn sat_sub(a: u64, b: u64) -> u64 {
    if a >= b {
        (a - b) as u64
    } else {
        0
    }
}

pub fn saturating_add_u64(a: u64, b: u64) -> (r: u64)
    ensures
        r == sat_add(a, b),
{
    if a > u64::MAX - b {
        u64::MAX
    } else {
        a + b
    }
}

pub fn saturating_sub_u64(a: u64, b: u64) -> (r: u64)
    ensures
        r == sat_sub(a, b),
{
    if a >= b {
        a - b
    } else {
        0
    }
}

/// The catalog after one log record is applied, exactly as the live
/// mutation paths would apply it; records that reference missing
/// entries are ignored.
pub open spec fn spec_apply(c: CatalogRec, e: WalRec) -> CatalogRec {
    match e {
        WalRec::RepoCreated { id, name, max_size_bytes, default_ttl_seconds, created_at } => {
            let rec = RepoRec {
                id,
                name,
                max_size_bytes,
                current_size_bytes: 0,
                file_count: 0,
                created_at,
                updated_at: created_at,
                last_accessed_at: created_at,
                default_ttl_seconds,
                tags: Map::empty(),
            };
            CatalogRec {
                repos: c.repos.insert(id, rec),
                files: if c.files.contains_key(id) {
                    c.files
                } else {
                    c.files.insert(id, Map::empty())
                },
            }
        },
        WalRec::RepoUpdated { id, name, max_size_bytes, default_ttl_seconds, tags, updated_at } => {
            if c.repos.contains_key(id) {
                let r0 = c.repos[id];
                let rec = RepoRec {
                    name: match name {
                        Some(n) => n,
                        None => r0.name,
                    },
                    max_size_bytes: match max_size_bytes {
                        Some(m) => m,
                        None => r0.max_size_bytes,
                    },
                    default_ttl_seconds: match default_ttl_seconds {
                        Some(t) => t,
                        None => r0.default_ttl_seconds,
                    },
                    tags: match tags {
                        Some(t) => t,
                        None => r0.tags,
                    },
                    updated_at,
                    ..r0
                };
                CatalogRec { repos: c.repos.insert(id, rec), files: c.files }
            } else {
                c
            }
        },
        WalRec::RepoDeleted { id } => CatalogRec {
            repos: c.repos.remove(id),
            files: c.files.remove(id),
        },
        WalRec::RepoSizeChanged { id, current_size_bytes, file_count } => {
            if c.repos.contains_key(id) {
                let rec = RepoRec { current_size_bytes, file_count, ..c.repos[id] };
                CatalogRec { repos: c.repos.insert(id, rec), files: c.files }
            } else {
                c
            }
        },
        WalRec::FileCreated {
            repo_id,
            path,
            size_bytes,
            etag,
            content_type,
            created_at,
            expires_at,
        } => {
            let frec = FileRec {
                repo_id,
                path,
                size_bytes,
                etag,
                content_type,
                created_at,
                updated_at: created_at,
                last_accessed_at: created_at,
                access_count: 0,
                expires_at,
            };
            let t0 = if c.files.contains_key(repo_id) {
                c.files[repo_id]
            } else {
                Map::empty()
            };
            let repos = if c.repos.contains_key(repo_id) {
                let r0 = c.repos[repo_id];
                c.repos.insert(
                    repo_id,
                    RepoRec {
                        current_size_bytes: sat_add(r0.current_size_bytes, size_bytes),
                        file_count: sat_add(r0.file_count, 1),
                        ..r0
                    },
                )
            } else {
                c.repos
            };
            CatalogRec { repos, files: c.files.insert(repo_id, t0.insert(path, frec)) }
        },
        WalRec::FileDeleted { repo_id, path } => {
            if c.files.contains_key(repo_id) && c.files[repo_id].contains_key(path) {
                let sz = c.files[repo_id][path].size_bytes;
                let repos = if c.repos.contains_key(repo_id) {
                    let r0 = c.repos[repo_id];
                    c.repos.insert(
                        repo_id,
                        RepoRec {
                            current_size_bytes: sat_sub(r0.current_size_bytes, sz),
                            file_count: sat_sub(r0.file_count, 1),
                            ..r0
                        },
                    )
                } else {
                    c.repos
                };
                CatalogRec { repos, files: c.files.insert(repo_id, c.files[repo_id].remove(path)) }
            } else {
                c
            }
        },
        WalRec::FileMoved { repo_id, source, destination, updated_at } => {
            if c.files.contains_key(repo_id) && c.files[repo_id].contains_key(source) {
                let m0 = c.files[repo_id][source];
                let m1 = FileRec { path: destination, updated_at, ..m0 };
                CatalogRec {
                    repos: c.repos,
                    files: c.files.insert(
                        repo_id,
                        c.files[repo_id].remove(source).insert(destination, m1),
                    ),
                }
            } else {
                c
            }
        },
    }
}

/// The catalog after a record sequence is replayed in order.
pub open spec fn spec_replay(c: CatalogRec, es: Seq<WalRec>) -> CatalogRec
    decreases es.len(),
{
    if es.len() == 0 {
        c
    } else {
        spec_replay(spec_apply(c, es[0]), es.drop_first())
    }
}

/// Apply one log record to the catalog, exactly as the live mutation
/// paths would.
pub fn apply_wal_entry(cat: &mut Catalog, e: &WalEntry)
    requires
        old(cat).wf(),
    ensures
        final(cat).wf(),
        final(cat)@ == spec_apply(old(cat)@, e@),
{
    match e {
        WalEntry::RepoCreated { id, name, max_size_bytes, default_ttl_seconds, created_at } => {
            let meta = RepoMeta {
                id: *id,
                name: name.clone(),
                max_size_bytes: *max_size_bytes,
                current_size_bytes: 0,
                file_count: 0,
                created_at: *created_at,
                updated_at: *created_at,
                last_accessed_at: *created_at,
                default_ttl_seconds: *default_ttl_seconds,
                tags: Vec::new(),
            };
            proof {
                assert(meta@.tags =~= Map::<Seq<char>, Seq<char>>::empty());
            }
            cat.repo_upsert(meta);
            cat.bucket_ensure(*id);
        },
        WalEntry::RepoUpdated { id, name, max_size_bytes, default_ttl_seconds, tags, updated_at } => {
            match cat.repo_get(*id) {
                Some(r) => {
                    let mut meta = r.clone();
                    match name {
                        Some(n) => {
                            meta.name = n.clone();
                        },
                        None => {},
                    }
                    match max_size_bytes {
                        Some(m) => {
                            meta.max_size_bytes = *m;
                        },
                        None => {},
                    }
                    match default_ttl_seconds {
                        Some(t) => {
                            meta.default_ttl_seconds = *t;
                        },
                        None => {},
                    }
                    match tags {
                        Some(t) => {
                            meta.tags = clone_tags(t);
                        },
                        None => {},
                    }
                    meta.updated_at = *updated_at;
                    cat.repo_upsert(meta);
                },
                None => {},
            }
        },
        WalEntry::RepoDeleted { id } => {
            let _ = cat.repo_remove(*id);
            cat.bucket_remove(*id);
            proof {
                assert(cat@.repos =~= old(cat)@.repos.remove(*id));
            }
        },
        WalEntry::RepoSizeChanged { id, current_size_bytes, file_count } => {
            match cat.repo_get(*id) {
                Some(r) => {
                    let mut meta = r.clone();
                    meta.current_size_bytes = *current_size_bytes;
                    meta.file_count = *file_count;
                    cat.repo_upsert(meta);
                },
                None => {},
            }
        },
        WalEntry::FileCreated {
            repo_id,
            path,
            size_bytes,
            etag,
            content_type,
            created_at,
            expires_at,
        } => {
            let meta = FileMeta {
                repo_id: *repo_id,
                path: path.clone(),
                size_bytes: *size_bytes,
                etag: etag.clone(),
                content_type: content_type.clone(),
                created_at: *created_at,
                updated_at: *created_at,
                last_accessed_at: *created_at,
                access_count: 0,
                expires_at: *expires_at,
            };
            cat.file_insert(*repo_id, meta);
            match cat.repo_get(*repo_id) {
                Some(r) => {
                    let mut rm = r.clone();
                    rm.current_size_bytes = saturating_add_u64(rm.current_size_bytes, *size_bytes);
                    rm.file_count = saturating_add_u64(rm.file_count, 1);
                    cat.repo_upsert(rm);
                },
                None => {},
            }
        },
        WalEntry::FileDeleted { repo_id, path } => {
            match cat.file_remove(*repo_id, path.as_str()) {
                Some(m) => {
                    match cat.repo_get(*repo_id) {
                        Some(r) => {
                            let mut rm = r.clone();
                            rm.current_size_bytes = saturating_sub_u64(
                                rm.current_size_bytes,
                                m.size_bytes,
                            );
                            rm.file_count = saturating_sub_u64(rm.file_count, 1);
                            cat.repo_upsert(rm);
                        },
                        None => {},
                    }
                },
                None => {},
            }
        },
        WalEntry::FileMoved { repo_id, source, destination, updated_at } => {
            match cat.file_remove(*repo_id, source.as_str()) {
                Some(m) => {
                    let mut m1 = m;
                    m1.path = destination.clone();
                    m1.updated_at = *updated_at;
                    cat.file_insert(*repo_id, m1);
                    proof {
                        let c0 = old(cat)@;
                        let m0 = c0.files[*repo_id][source@];
                        let mrec = FileRec { path: destination@, updated_at: *updated_at, ..m0 };
                        assert(m1@ == mrec);
                        assert(final(cat)@.files =~= c0.files.insert(
                            *repo_id,
                            c0.files[*repo_id].remove(source@).insert(destination@, mrec),
                        ));
                    }
                },
                None => {},
            }
        },
    }
}

/// Replay a record sequence over the catalog, in order.
pub fn replay_wal_entries(cat: &mut Catalog, entries: &Vec<WalEntry>)
    requires
        old(cat).wf(),
    ensures
        final(cat).wf(),
        final(cat)@ == spec_replay(old(cat)@, entries@.map_values(|e: WalEntry| e@)),
{
    let ghost es = entries@.map_values(|e: WalEntry| e@);
    proof {
        assert(es.skip(0) =~= es);
    }
    let mut i: usize = 0;
    while i < entries.len()
        invariant
            cat.wf(),
            i <= entries@.len(),
            es == entries@.map_values(|e: WalEntry| e@),
            spec_replay(old(cat)@, es) == spec_replay(cat@, es.skip(i as int)),
        decreases entries@.len() - i,
    {
        let ghost before = cat@;
        apply_wal_entry(cat, &entries[i]);
        proof {
            assert(es.skip(i as int)[0] == es[i as int]);
            assert(es.skip(i as int).drop_first() =~= es.skip(i + 1));
            assert(spec_replay(before, es.skip(i as int)) == spec_replay(
                spec_apply(before, es[i as int]),
                es.skip(i + 1),
            ));
        }
        i += 1;
    }
    proof {
        assert(es.skip(es.len() as int) =~= Seq::<WalRec>::empty());
    }
}

/// What the reconciliation pass learned from the byte store about one
/// repository: whether its directory exists, and which of its indexed
/// paths have a blob on disk.
pub struct RepoDisk {
    pub repo_id: u128,
    pub dir_exists: bool,
    pub present: Vec<String>,
}

/// One fact record per repository id.
pub open spec fn disk_wf(ds: Seq<RepoDisk>) -> bool {
    forall|i: int, j: int|
        0 <= i < j < ds.len() ==> (#[trigger] ds[i].repo_id) != (#[trigger] ds[j].repo_id)
}

/// The repository's directory exists on disk.
pub open spec fn disk_dir_ok(ds: Seq<RepoDisk>, id: u128) -> bool {
    exists|i: int| 0 <= i < ds.len() && (#[trigger] ds[i]).repo_id == id && ds[i].dir_exists
}

/// The blob of `(id, p)` exists on disk.
pub open spec fn disk_present(ds: Seq<RepoDisk>, id: u128, p: Seq<char>) -> bool {
    exists|i: int|
        0 <= i < ds.len() && (#[trigger] ds[i]).repo_id == id && ds[i].dir_exists && crate::text::str_views(ds[i].present@).contains(p)
}

fn disk_find<'a>(disk: &'a Vec<RepoDisk>, id: u128) -> (r: Option<&'a RepoDisk>)
    ensures
        match r {
            Some(d) => exists|i: int|
                0 <= i < disk@.len() && (#[trigger] disk@[i]).repo_id == id && disk@[i] == *d,
            None => forall|i: int|
                0 <= i < disk@.len() ==> (#[trigger] disk@[i]).repo_id != id,
        },
{
    let mut i: usize = 0;
    while i < disk.len()
        invariant
            i <= disk@.len(),
            forall|j: int| 0 <= j < i ==> (#[trigger] disk@[j]).repo_id != id,
        decreases disk@.len() - i,
    {
        if disk[i].repo_id == id {
            return Some(&disk[i]);
        }
        i += 1;
    }
    None
}

fn present_contains(d: &RepoDisk, path: &str) -> (r: bool)
    ensures
        r == crate::text::str_views(d.present@).contains(path@),
{
    let mut i: usize = 0;
    while i < d.present.len()
        invariant
            i <= d.present@.len(),
            forall|j: int| 0 <= j < i ==> (#[trigger] d.present@[j])@ != path@,
        decreases d.present@.len() - i,
    {
        if crate::text::str_eq(d.present[i].as_str(), path) {
            proof {
                assert(crate::text::str_views(d.present@)[i as int] == path@);
            }
            return true;
        }
        i += 1;
    }
    proof {
        let mapped = crate::text::str_views(d.present@);
        if mapped.contains(path@) {
            let j = choose|j: int| 0 <= j < mapped.len() && (#[trigger] mapped[j]) == path@;
            assert(d.present@[j]@ == path@);
        }
    }
    false
}

/// Reconcile one repository against its disk facts: drop every indexed
/// path without a blob, then recompute the stored size and count from
/// the survivors.
#[verifier::rlimit(100)]
#[verifier::spinoff_prover]
fn reconcile_repo(cat: &mut Catalog, id: u128, d: &RepoDisk)
    requires
        old(cat).wf(),
        old(cat)@.repos.contains_key(id),
        d.repo_id == id,
        d.dir_exists,
    ensures
        final(cat).wf(),
        final(cat)@.repos.contains_key(id),
        final(cat)@.repos.dom() == old(cat)@.repos.dom(),
        forall|id2: u128|
            id2 != id ==> (#[trigger] final(cat).files_of(id2)) == old(cat).files_of(id2),
        forall|id2: u128|
            id2 != id ==> (#[trigger] final(cat)@.files.contains_key(id2)) == old(cat)@.files.contains_key(id2) && (old(cat)@.files.contains_key(id2) ==> final(cat)@.files[id2] == old(cat)@.files[id2]),
        forall|id2: u128|
            id2 != id ==> old(cat)@.repos.contains_key(id2) ==> final(cat)@.repos[id2] == old(cat)@.repos[id2],
        forall|j: int|
            0 <= j < final(cat).repos@.len() && (#[trigger] final(cat).repos@[j])@.id != id
                ==> final(cat).repos@[j] == old(cat).repos@[j],
        final(cat).repos@.len() == old(cat).repos@.len(),
        // the surviving records are exactly the present ones, unchanged
        forall|p: Seq<char>|
            #![trigger final(cat).file_exists(id, p)]
            final(cat).file_exists(id, p) ==> crate::text::str_views(d.present@).contains(p)
                && old(cat).file_exists(id, p) && final(cat)@.files[id][p] == old(cat)@.files[id][p],
        forall|p: Seq<char>|
            #![trigger old(cat).file_exists(id, p)]
            old(cat).file_exists(id, p) && crate::text::str_views(d.present@).contains(p)
                ==> final(cat).file_exists(id, p),
        // accounting recomputed from the survivors
        final(cat)@.repos[id] == (crate::models::RepoRec {
            current_size_bytes: crate::file_service::clamp_u64(final(cat).size_of(id)),
            file_count: final(cat).count_of(id) as u64,
            ..old(cat)@.repos[id]
        }),
        final(cat).count_of(id) <= usize::MAX,
{
    let ghost c0 = *cat;
    // find the paths whose blobs are gone
    let mut orphans: Vec<String> = Vec::new();
    match cat.table_get(id) {
        None => {},
        Some(t) => {
            let ghost tes = t.entries@;
            let mut k: usize = 0;
            while k < t.entries.len()
                invariant
                    cat.wf(),
                    k <= tes.len(),
                    tes == t.entries@,
                    t.wf(),
                    t@ == cat@.files[id],
                    cat@.files.contains_key(id),
                    forall|x: int|
                        0 <= x < orphans@.len() ==> cat@.files[id].contains_key(
                            (#[trigger] orphans@[x])@,
                        ) && !crate::text::str_views(d.present@).contains(orphans@[x]@),
                    forall|x: int|
                        0 <= x < orphans@.len() ==> exists|y: int|
                            0 <= y < k && (#[trigger] tes[y])@.path == (
                            #[trigger] orphans@[x])@,
                    forall|x: int, y: int|
                        0 <= x < y < orphans@.len() ==> (#[trigger] orphans@[x]@) != (
                        #[trigger] orphans@[y]@),
                    forall|x: int|
                        0 <= x < k && !crate::text::str_views(d.present@).contains(
                            (#[trigger] tes[x])@.path,
                        ) ==> orphans@.map_values(|s: String| s@).contains(tes[x]@.path),
                decreases tes.len() - k,
            {
                let ghost or0 = orphans@;
                if !present_contains(d, t.entries[k].path.as_str()) {
                    orphans.push(t.entries[k].path.clone());
                    proof {
                        crate::catalog::lemma_table_index(tes, k as int);
                        assert forall|x: int, y: int|
                            0 <= x < y < orphans@.len() implies (#[trigger] orphans@[x]@) != (
                        #[trigger] orphans@[y]@) by {
                            if y == orphans@.len() - 1 {
                                let yy = choose|yy: int|
                                    0 <= yy < k && (#[trigger] tes[yy])@.path == or0[x]@;
                                assert(tes[yy]@.path != tes[k as int]@.path);
                            }
                        }
                        assert forall|x: int|
                            0 <= x < k + 1 && !crate::text::str_views(d.present@).contains(
                                (#[trigger] tes[x])@.path,
                            ) implies orphans@.map_values(|s: String| s@).contains(
                            tes[x]@.path,
                        ) by {
                            if x < k {
                                let mapped = or0.map_values(|s: String| s@);
                                assert(mapped.contains(tes[x]@.path));
                                let w = choose|w: int|
                                    0 <= w < mapped.len() && (#[trigger] mapped[w])
                                        == tes[x]@.path;
                                assert(orphans@.map_values(|s: String| s@)[w] == tes[x]@.path);
                            } else {
                                assert(orphans@.map_values(|s: String| s@).last()
                                    == tes[k as int]@.path);
                            }
                        }
                    }
                } else {
                    proof {
                        crate::catalog::lemma_table_index(tes, k as int);
                    }
                }
                k += 1;
            }
            proof {
                assert forall|p: Seq<char>|
                    cat.file_exists(id, p) && !crate::text::str_views(d.present@).contains(
                        p,
                    ) implies orphans@.map_values(|s: String| s@).contains(p) by {
                    crate::catalog::lemma_table_contains(tes, p);
                    let x = choose|x: int| 0 <= x < tes.len() && (#[trigger] tes[x]@.path) == p;
                    crate::catalog::lemma_table_index(tes, x);
                }
            }
        },
    }
    // drop them
    let mut i: usize = 0;
    while i < orphans.len()
        invariant
            cat.wf(),
            i <= orphans@.len(),
            cat@.repos == c0@.repos,
            cat.repos@ == c0.repos@,
            forall|id2: u128|
                id2 != id ==> (#[trigger] cat.files_of(id2)) == c0.files_of(id2),
            forall|id2: u128|
                id2 != id ==> (#[trigger] cat@.files.contains_key(id2))
                    == c0@.files.contains_key(id2) && (c0@.files.contains_key(id2)
                    ==> cat@.files[id2] == c0@.files[id2]),
            forall|x: int|
                0 <= x < orphans@.len() ==> c0.file_exists(id, (#[trigger] orphans@[x])@)
                    && !crate::text::str_views(d.present@).contains(orphans@[x]@),
            forall|x: int, y: int|
                0 <= x < y < orphans@.len() ==> (#[trigger] orphans@[x]@) != (
                #[trigger] orphans@[y]@),
            // survivors keep their records
            forall|p: Seq<char>|
                #![trigger cat.file_exists(id, p)]
                cat.file_exists(id, p) ==> c0.file_exists(id, p) && cat@.files[id][p]
                    == c0@.files[id][p],
            // only the dropped prefix is gone
            forall|p: Seq<char>|
                #![trigger c0.file_exists(id, p)]
                c0.file_exists(id, p) ==> (cat.file_exists(id, p) <==> !orphans@.subrange(
                    0,
                    i as int,
                ).map_values(|s: String| s@).contains(p)),
            forall|p: Seq<char>|
                cat.file_exists(id, p) && !crate::text::str_views(d.present@).contains(p)
                    ==> orphans@.map_values(|s: String| s@).contains(p),
        decreases orphans@.len() - i,
    {
        let ghost catpre = *cat;
        proof {
            // this orphan has not been dropped yet
            let taken0 = orphans@.subrange(0, i as int).map_values(|s: String| s@);
            assert(!taken0.contains(orphans@[i as int]@)) by {
                if taken0.contains(orphans@[i as int]@) {
                    let w = choose|w: int|
                        0 <= w < taken0.len() && (#[trigger] taken0[w]) == orphans@[i as int]@;
                    assert(orphans@[w]@ == orphans@[i as int]@);
                }
            }
            assert(catpre.file_exists(id, orphans@[i as int]@));
        }
        let _ = cat.file_remove(id, orphans[i].as_str());
        proof {
            assert forall|p: Seq<char>|
                #![trigger c0.file_exists(id, p)]
                c0.file_exists(id, p) implies (cat.file_exists(id, p) <==> !orphans@.subrange(
                0,
                i + 1,
            ).map_values(|s: String| s@).contains(p)) by {
                let taken = orphans@.subrange(0, i + 1).map_values(|s: String| s@);
                let taken0 = orphans@.subrange(0, i as int).map_values(|s: String| s@);
                assert(taken =~= taken0.push(orphans@[i as int]@));
                if p == orphans@[i as int]@ {
                    assert(taken.last() == p);
                    assert(taken.contains(p));
                    assert(!cat.file_exists(id, p));
                } else {
                    assert(cat.file_exists(id, p) <==> catpre.file_exists(id, p));
                    if taken.contains(p) {
                        let w = choose|w: int| 0 <= w < taken.len() && (#[trigger] taken[w]) == p;
                        assert(w < taken0.len());
                        assert(taken0[w] == p);
                        assert(taken0.contains(p));
                    }
                    if taken0.contains(p) {
                        let w = choose|w: int|
                            0 <= w < taken0.len() && (#[trigger] taken0[w]) == p;
                        assert(taken[w] == p);
                        assert(taken.contains(p));
                    }
                }
            }
            assert forall|p: Seq<char>|
                #![trigger cat.file_exists(id, p)]
                cat.file_exists(id, p) implies c0.file_exists(id, p) && cat@.files[id][p]
                == c0@.files[id][p] by {
                assert(catpre.file_exists(id, p));
                assert(cat@.files[id][p] == catpre@.files[id][p]);
            }
            assert forall|p: Seq<char>|
                cat.file_exists(id, p) && !crate::text::str_views(d.present@).contains(
                    p,
                ) implies orphans@.map_values(|s: String| s@).contains(p) by {
                assert(catpre.file_exists(id, p));
            }
        }
        i += 1;
    }
    let ghost c2 = *cat;
    proof {
        assert forall|p: Seq<char>|
            #![trigger c2.file_exists(id, p)]
            c2.file_exists(id, p) implies crate::text::str_views(d.present@).contains(p)
            && c0.file_exists(id, p) && c2@.files[id][p] == c0@.files[id][p] by {
            assert(cat.file_exists(id, p));
            if !crate::text::str_views(d.present@).contains(p) {
                let mapped = orphans@.map_values(|s: String| s@);
                assert(mapped.contains(p));
                let w = choose|w: int| 0 <= w < mapped.len() && (#[trigger] mapped[w]) == p;
                let full = orphans@.subrange(0, orphans@.len() as int).map_values(
                    |s: String| s@,
                );
                assert(orphans@.subrange(0, orphans@.len() as int) =~= orphans@);
                assert(full.contains(p)) by {
                    assert(full[w] == p);
                }
                assert(!cat.file_exists(id, p));
            }
        }
        assert forall|p: Seq<char>|
            #![trigger c0.file_exists(id, p)]
            c0.file_exists(id, p) && crate::text::str_views(d.present@).contains(
                p,
            ) implies c2.file_exists(id, p) by {
            let full = orphans@.subrange(0, orphans@.len() as int);
            assert(full =~= orphans@);
            let mapped = orphans@.map_values(|s: String| s@);
            if mapped.contains(p) {
                let w = choose|w: int| 0 <= w < mapped.len() && (#[trigger] mapped[w]) == p;
                assert(!crate::text::str_views(d.present@).contains(orphans@[w]@));
            }
            assert(cat.file_exists(id, p));
        }
    }
    // recompute the stored size and count from the survivors
    let mut total: u128 = 0;
    let mut count: u64 = 0;
    match cat.table_get(id) {
        None => {
            proof {
                crate::catalog::lemma_sum_nonneg(cat.files_of(id));
                assert(cat.files_of(id) =~= Seq::<crate::models::FileRec>::empty());
            }
        },
        Some(t) => {
            let ghost recs = t.recs();
            let mut k: usize = 0;
            proof {
                assert(recs.take(0) =~= Seq::<crate::models::FileRec>::empty());
            }
            while k < t.entries.len()
                invariant
                    k <= t.entries@.len(),
                    recs == t.recs(),
                    recs.len() == t.entries@.len(),
                    total == crate::catalog::sum_sizes(recs.take(k as int)),
                    count == k,
                    total <= (k as int) * (u64::MAX as int),
                decreases t.entries@.len() - k,
            {
                proof {
                    assert(recs.take(k + 1) =~= recs.take(k as int).push(recs[k as int]));
                    crate::catalog::lemma_sum_push(recs.take(k as int), recs[k as int]);
                    assert(recs[k as int] == t.entries@[k as int]@);
                    assert((k as int) * (u64::MAX as int) + (u64::MAX as int) == ((k + 1) as int)
                        * (u64::MAX as int)) by (nonlinear_arith);
                    assert(((k + 1) as int) * (u64::MAX as int) < u128::MAX) by (nonlinear_arith)
                        requires
                            0 <= k + 1 <= usize::MAX,
                    ;
                }
                total = total + t.entries[k].size_bytes as u128;
                count = count + 1;
                k += 1;
            }
            proof {
                assert(recs.take(t.entries@.len() as int) =~= recs);
                assert(cat.files_of(id) == recs);
            }
        },
    }
    let new_size: u64 = if total > u64::MAX as u128 {
        u64::MAX
    } else {
        total as u64
    };
    let rm = cat.repo_get(id).unwrap();
    let mut newrm = rm.clone();
    newrm.current_size_bytes = new_size;
    newrm.file_count = count;
    let ghost newrmv = newrm;
    cat.repo_upsert(newrm);
    proof {
        crate::catalog::lemma_sum_nonneg(cat.files_of(id));
        let i2 = choose|i2: int|
            0 <= i2 < c2.repos@.len() && (#[trigger] c2.repos@[i2]@.id) == id && cat.repos@
                == c2.repos@.update(i2, newrmv);
        crate::catalog::lemma_repos_index(c2.repos@, i2);
        assert(cat@.repos =~= c0@.repos.insert(id, newrmv@));
        assert forall|j: int|
            0 <= j < cat.repos@.len() && (#[trigger] cat.repos@[j])@.id != id implies cat.repos@[j]
            == c0.repos@[j] by {
            assert(j != i2);
        }
        assert forall|id2: u128|
            id2 != id && c0@.repos.contains_key(id2) implies cat@.repos[id2] == c0@.repos[id2] by {}
        assert(cat@.repos.dom() =~= c0@.repos.dom());
        // the repository update left the file tables alone
        assert(cat@.files == c2@.files);
        assert(cat.buckets@ == c2.buckets@);
        assert forall|id2: u128|
            id2 != id implies (#[trigger] cat.files_of(id2)) == c0.files_of(id2) by {
            assert(c2.files_of(id2) == c0.files_of(id2));
        }
        assert forall|p: Seq<char>|
            #![trigger cat.file_exists(id, p)]
            cat.file_exists(id, p) implies crate::text::str_views(d.present@).contains(p)
            && c0.file_exists(id, p) && cat@.files[id][p] == c0@.files[id][p] by {
            assert(c2.file_exists(id, p));
        }
        assert forall|p: Seq<char>|
            #![trigger c0.file_exists(id, p)]
            c0.file_exists(id, p) && crate::text::str_views(d.present@).contains(
                p,
            ) implies cat.file_exists(id, p) by {
            assert(c2.file_exists(id, p));
        }
        crate::catalog::lemma_count_bound(*cat, id);
    }
}

/// Reconcile the catalog with the byte store: a repository whose
/// directory is gone is dropped with all its records; otherwise its
/// indexed paths without a blob are dropped and its size and count are
/// recomputed from the survivors.
pub fn reconcile(cat: &mut Catalog, disk: &Vec<RepoDisk>)
    requires
        old(cat).wf(),
        disk_wf(disk@),
    ensures
        final(cat).wf(),
        // a surviving repository was there before and has its directory
        forall|id: u128|
            #[trigger] final(cat)@.repos.contains_key(id) ==> old(cat)@.repos.contains_key(id)
                && disk_dir_ok(disk@, id),
        // a repository whose directory exists survives
        forall|id: u128|
            old(cat)@.repos.contains_key(id) && disk_dir_ok(disk@, id)
                ==> #[trigger] final(cat)@.repos.contains_key(id),
        // every indexed file of a surviving repository is on disk
        forall|id: u128, p: Seq<char>|
            #![trigger final(cat)@.files[id].contains_key(p)]
            final(cat)@.repos.contains_key(id) && final(cat)@.files.contains_key(id) && final(cat)@.files[id].contains_key(p) ==> disk_present(disk@, id, p),
        // and every indexed file whose blob is on disk survives, with
        // its record unchanged
        forall|id: u128, p: Seq<char>|
            old(cat)@.repos.contains_key(id) && disk_dir_ok(disk@, id) && (#[trigger] old(cat).file_exists(id, p)) && disk_present(disk@, id, p) ==> final(cat).file_exists(
                id,
                p,
            ) && final(cat)@.files[id][p] == old(cat)@.files[id][p],
        // the accounting invariant holds afterwards whenever the sums fit
        forall|j: int|
            0 <= j < final(cat).repos@.len() ==> {
                let r2 = (#[trigger] final(cat).repos@[j])@;
                r2.current_size_bytes == crate::file_service::clamp_u64(
                    final(cat).size_of(r2.id),
                ) && r2.file_count == final(cat).count_of(r2.id)
            },
        (forall|j: int|
            0 <= j < final(cat).repos@.len() ==> final(cat).size_of(
                (#[trigger] final(cat).repos@[j])@.id,
            ) <= u64::MAX) ==> final(cat).accounted(),
{
    let ghost c0 = *cat;
    let mut ids: Vec<u128> = Vec::new();
    let mut k: usize = 0;
    while k < cat.repo_count()
        invariant
            cat.wf(),
            k <= cat.repos@.len(),
            ids@.len() == k,
            forall|j: int| 0 <= j < k ==> (#[trigger] ids@[j]) == cat.repos@[j]@.id,
        decreases cat.repos@.len() - k,
    {
        ids.push(cat.repo_at(k).id);
        k += 1;
    }
    proof {
        assert forall|j: int| 0 <= j < ids@.len() implies c0@.repos.contains_key(
            #[trigger] ids@[j],
        ) by {
            crate::catalog::lemma_repos_index(c0.repos@, j);
        }
        assert forall|id: u128| #[trigger]
            c0@.repos.contains_key(id) implies exists|j: int|
            0 <= j < ids@.len() && (#[trigger] ids@[j]) == id by {
            crate::catalog::lemma_repos_contains(c0.repos@, id);
            let x = choose|x: int| 0 <= x < c0.repos@.len() && (#[trigger] c0.repos@[x]@.id) == id;
            assert(ids@[x] == id);
        }
        assert forall|x: int, y: int|
            0 <= x < y < ids@.len() implies (#[trigger] ids@[x]) != (#[trigger] ids@[y]) by {
            assert(c0.repos@[x]@.id != c0.repos@[y]@.id);
        }
    }
    let mut i: usize = 0;
    while i < ids.len()
        invariant
            cat.wf(),
            i <= ids@.len(),
            disk_wf(disk@),
            forall|j: int| 0 <= j < ids@.len() ==> c0@.repos.contains_key(#[trigger] ids@[j]),
            forall|id: u128| #[trigger]
                c0@.repos.contains_key(id) ==> exists|j: int|
                    0 <= j < ids@.len() && (#[trigger] ids@[j]) == id,
            forall|x: int, y: int|
                0 <= x < y < ids@.len() ==> (#[trigger] ids@[x]) != (#[trigger] ids@[y]),
            // nothing new appears
            forall|id: u128|
                #[trigger] cat@.repos.contains_key(id) ==> c0@.repos.contains_key(id),
            // unprocessed repositories are untouched
            forall|x: int|
                i <= x < ids@.len() ==> cat@.repos.contains_key(#[trigger] ids@[x])
                    && cat@.repos[ids@[x]] == c0@.repos[ids@[x]],
            forall|x: int|
                i <= x < ids@.len() ==> cat@.files.contains_key(#[trigger] ids@[x])
                    == c0@.files.contains_key(ids@[x]) && (c0@.files.contains_key(ids@[x])
                    ==> cat@.files[ids@[x]] == c0@.files[ids@[x]]),
            // processed repositories meet their reconciliation contract
            forall|x: int|
                0 <= x < i ==> ((#[trigger] cat@.repos.contains_key(ids@[x])) <==> disk_dir_ok(
                    disk@,
                    ids@[x],
                )),
            forall|x: int, p: Seq<char>|
                0 <= x < i && cat@.repos.contains_key(ids@[x]) && #[trigger] cat.file_exists(
                    ids@[x],
                    p,
                ) ==> disk_present(disk@, ids@[x], p),
            forall|x: int|
                0 <= x < i && cat@.repos.contains_key(#[trigger] ids@[x])
                    ==> cat@.repos[ids@[x]].current_size_bytes
                    == crate::file_service::clamp_u64(cat.size_of(ids@[x]))
                    && cat@.repos[ids@[x]].file_count == cat.count_of(ids@[x]),
            forall|x: int, p: Seq<char>|
                0 <= x < i && disk_dir_ok(disk@, ids@[x]) && (#[trigger] c0.file_exists(
                    ids@[x],
                    p,
                )) && disk_present(disk@, ids@[x], p) ==> cat.file_exists(ids@[x], p)
                    && cat@.files[ids@[x]][p] == c0@.files[ids@[x]][p],
        decreases ids@.len() - i,
    {
        let id = ids[i];
        let ghost catpre = *cat;
        let found = disk_find(disk, id);
        match found {
            Some(d) if d.dir_exists => {
                proof {
                    let w2 = choose|w2: int|
                        0 <= w2 < disk@.len() && (#[trigger] disk@[w2]).repo_id == id && disk@[w2]
                            == *d;
                    assert(disk_dir_ok(disk@, id));
                }
                reconcile_repo(cat, id, d);
                proof {
                    // the facts of this repository's record line up with
                    // the disk facts
                    assert forall|p: Seq<char>|
                        #[trigger] cat.file_exists(id, p) implies disk_present(
                        disk@,
                        id,
                        p,
                    ) by {
                        let w = choose|w: int|
                            0 <= w < disk@.len() && (#[trigger] disk@[w]).repo_id == id
                                && disk@[w] == *d;
                        assert(crate::text::str_views(disk@[w].present@).contains(p));
                    }
                    assert forall|x: int|
                        i + 1 <= x < ids@.len() implies cat@.repos.contains_key(
                        #[trigger] ids@[x],
                    ) && cat@.repos[ids@[x]] == c0@.repos[ids@[x]] by {
                        assert(ids@[x] != id);
                    }
                    assert forall|x: int|
                        0 <= x < i && cat@.repos.contains_key(#[trigger] ids@[x])
                            implies cat@.repos[ids@[x]].current_size_bytes
                            == crate::file_service::clamp_u64(cat.size_of(ids@[x]))
                            && cat@.repos[ids@[x]].file_count == cat.count_of(ids@[x]) by {
                        assert(ids@[x] != id);
                        assert(cat.files_of(ids@[x]) == catpre.files_of(ids@[x]));
                    }
                    assert forall|x: int, p: Seq<char>|
                        0 <= x < i + 1 && cat@.repos.contains_key(ids@[x])
                            && #[trigger] cat.file_exists(ids@[x], p) implies disk_present(
                        disk@,
                        ids@[x],
                        p,
                    ) by {
                        if x < i {
                            assert(ids@[x] != id);
                            assert(catpre.file_exists(ids@[x], p));
                        }
                    }
                    assert forall|x: int|
                        i + 1 <= x < ids@.len() implies cat@.files.contains_key(
                        #[trigger] ids@[x],
                    ) == c0@.files.contains_key(ids@[x]) && (c0@.files.contains_key(ids@[x])
                        ==> cat@.files[ids@[x]] == c0@.files[ids@[x]]) by {
                        assert(ids@[x] != id);
                    }
                    assert forall|x: int, p: Seq<char>|
                        0 <= x < i + 1 && disk_dir_ok(disk@, ids@[x]) && (
                    #[trigger] c0.file_exists(ids@[x], p)) && disk_present(
                        disk@,
                        ids@[x],
                        p,
                    ) implies cat.file_exists(ids@[x], p) && cat@.files[ids@[x]][p]
                        == c0@.files[ids@[x]][p] by {
                        if x < i {
                            assert(ids@[x] != id);
                            assert(catpre.file_exists(ids@[x], p));
                            assert(cat@.files.contains_key(ids@[x])
                                == catpre@.files.contains_key(ids@[x]));
                            assert(cat@.files[ids@[x]] == catpre@.files[ids@[x]]);
                        } else {
                            // this repository was just reconciled against `d`
                            assert(catpre@.files.contains_key(id));
                            assert(catpre@.files[id] == c0@.files[id]);
                            assert(catpre.file_exists(id, p));
                            // the unique disk record for `id` is `d`, so its
                            // present list holds `p`
                            let w2 = choose|w2: int|
                                0 <= w2 < disk@.len() && (#[trigger] disk@[w2]).repo_id == id
                                    && disk@[w2] == *d;
                            let w = choose|w: int|
                                0 <= w < disk@.len() && (#[trigger] disk@[w]).repo_id == id
                                    && disk@[w].dir_exists && crate::text::str_views(
                                    disk@[w].present@,
                                ).contains(p);
                            if w != w2 {
                                if w < w2 {
                                    assert(disk@[w].repo_id != disk@[w2].repo_id);
                                } else {
                                    assert(disk@[w2].repo_id != disk@[w].repo_id);
                                }
                            }
                            assert(crate::text::str_views(d.present@).contains(p));
                            assert(cat.file_exists(id, p));
                            assert(cat@.files[id][p] == catpre@.files[id][p]);
                            assert(catpre@.files[id][p] == c0@.files[id][p]);
                        }
                    }
                }
            },
            _ => {
                proof {
                    assert(!disk_dir_ok(disk@, id)) by {
                        if disk_dir_ok(disk@, id) {
                            let w = choose|w: int|
                                0 <= w < disk@.len() && (#[trigger] disk@[w]).repo_id == id
                                    && disk@[w].dir_exists;
                            match found {
                                Some(d) => {
                                    let w2 = choose|w2: int|
                                        0 <= w2 < disk@.len() && (#[trigger] disk@[w2]).repo_id
                                            == id && disk@[w2] == *d;
                                    if w != w2 {
                                        if w < w2 {
                                            assert(disk@[w].repo_id != disk@[w2].repo_id);
                                        } else {
                                            assert(disk@[w2].repo_id != disk@[w].repo_id);
                                        }
                                    }
                                    assert(disk@[w] == *d);
                                },
                                None => {
                                    assert(disk@[w].repo_id != id);
                                },
                            }
                        }
                    }
                }
                let _ = cat.repo_remove(id);
                cat.bucket_remove(id);
                proof {
                    assert forall|x: int|
                        i + 1 <= x < ids@.len() implies cat@.repos.contains_key(
                        #[trigger] ids@[x],
                    ) && cat@.repos[ids@[x]] == c0@.repos[ids@[x]] by {
                        assert(ids@[x] != id);
                    }
                    assert forall|x: int|
                        0 <= x < i && cat@.repos.contains_key(#[trigger] ids@[x])
                            implies cat@.repos[ids@[x]].current_size_bytes
                            == crate::file_service::clamp_u64(cat.size_of(ids@[x]))
                            && cat@.repos[ids@[x]].file_count == cat.count_of(ids@[x]) by {
                        assert(ids@[x] != id);
                        assert(cat.files_of(ids@[x]) == catpre.files_of(ids@[x]));
                    }
                    assert forall|x: int, p: Seq<char>|
                        0 <= x < i + 1 && cat@.repos.contains_key(ids@[x])
                            && #[trigger] cat.file_exists(ids@[x], p) implies disk_present(
                        disk@,
                        ids@[x],
                        p,
                    ) by {
                        if x < i {
                            assert(ids@[x] != id);
                            assert(catpre.file_exists(ids@[x], p));
                        }
                    }
                    assert forall|x: int|
                        i + 1 <= x < ids@.len() implies cat@.files.contains_key(
                        #[trigger] ids@[x],
                    ) == c0@.files.contains_key(ids@[x]) && (c0@.files.contains_key(ids@[x])
                        ==> cat@.files[ids@[x]] == c0@.files[ids@[x]]) by {
                        assert(ids@[x] != id);
                    }
                    assert forall|x: int, p: Seq<char>|
                        0 <= x < i + 1 && disk_dir_ok(disk@, ids@[x]) && (
                    #[trigger] c0.file_exists(ids@[x], p)) && disk_present(
                        disk@,
                        ids@[x],
                        p,
                    ) implies cat.file_exists(ids@[x], p) && cat@.files[ids@[x]][p]
                        == c0@.files[ids@[x]][p] by {
                        if x < i {
                            assert(ids@[x] != id);
                            assert(catpre.file_exists(ids@[x], p));
                            assert(cat@.files.contains_key(ids@[x])
                                == catpre@.files.contains_key(ids@[x]));
                            assert(cat@.files[ids@[x]] == catpre@.files[ids@[x]]);
                        }
                    }
                }
            },
        }
        i += 1;
    }
    proof {
        // the per-id facts give the global postconditions
        assert forall|id: u128| #[trigger]
            final(cat)@.repos.contains_key(id) implies c0@.repos.contains_key(id) && disk_dir_ok(
            disk@,
            id,
        ) by {
            let x = choose|x: int| 0 <= x < ids@.len() && (#[trigger] ids@[x]) == id;
        }
        assert forall|id: u128|
            c0@.repos.contains_key(id) && disk_dir_ok(disk@, id) implies #[trigger] final(cat)@.repos.contains_key(id) by {
            let x = choose|x: int| 0 <= x < ids@.len() && (#[trigger] ids@[x]) == id;
        }
        assert forall|id: u128, p: Seq<char>|
            #![trigger final(cat)@.files[id].contains_key(p)]
            final(cat)@.repos.contains_key(id) && final(cat)@.files.contains_key(id) && final(cat)@.files[id].contains_key(p) implies disk_present(disk@, id, p) by {
            let x = choose|x: int| 0 <= x < ids@.len() && (#[trigger] ids@[x]) == id;
            assert(cat.file_exists(ids@[x], p));
        }
        assert forall|id: u128, p: Seq<char>|
            c0@.repos.contains_key(id) && disk_dir_ok(disk@, id) && (#[trigger] c0.file_exists(
                id,
                p,
            )) && disk_present(disk@, id, p) implies cat.file_exists(id, p)
            && cat@.files[id][p] == c0@.files[id][p] by {
            let x = choose|x: int| 0 <= x < ids@.len() && (#[trigger] ids@[x]) == id;
            assert(c0.file_exists(ids@[x], p));
        }
        assert forall|j: int| 0 <= j < cat.repos@.len() implies {
            let r2 = (#[trigger] cat.repos@[j])@;
            r2.current_size_bytes == crate::file_service::clamp_u64(cat.size_of(r2.id))
                && r2.file_count == cat.count_of(r2.id)
        } by {
            crate::catalog::lemma_repos_index(cat.repos@, j);
            let r2 = cat.repos@[j]@;
            let x = choose|x: int| 0 <= x < ids@.len() && (#[trigger] ids@[x]) == r2.id;
            crate::catalog::lemma_count_bound(*cat, r2.id);
        }
        if forall|j: int|
            0 <= j < cat.repos@.len() ==> cat.size_of((#[trigger] cat.repos@[j])@.id)
                <= u64::MAX {
            assert forall|j: int| 0 <= j < cat.repos@.len() implies {
                let r2 = (#[trigger] cat.repos@[j])@;
                r2.current_size_bytes == cat.size_of(r2.id) && r2.file_count == cat.count_of(
                    r2.id,
                )
            } by {
                crate::catalog::lemma_sum_nonneg(cat.files_of(cat.repos@[j]@.id));
                crate::catalog::lemma_count_bound(*cat, cat.repos@[j]@.id);
            }
        }
    }
}

} // verus!
