//! Repository lifecycle: create, list, get, update, delete.

use vstd::prelude::*;

use crate::catalog::{Catalog, CatalogRec};
use crate::digest::fresh_repo_id;
use crate::error::AppError;
use crate::models::{clone_tags, CreateRepoRequest, RepoMeta, RepoRec, UpdateRepoRequest};
use crate::text::{lex_le, lemma_lex_le_trans, lemma_lex_lt_irrefl, lemma_lex_lt_trans, lemma_lex_total, str_eq};
use crate::wal::{opt_str_view, opt_tags_view, WalEntry, WalRec};
use vstd::string::*;

verus! {

/// Create a repository: a fresh identifier, the requested name, the
/// ceiling (or the configured default), and an empty file table. The
/// caller creates the on-disk directory.
pub fn create_repo(
    cat: &mut Catalog,
    req: &CreateRepoRequest,
    default_max_repo_size: u64,
    now_ms: i64,
) -> (r: Result<(RepoMeta, WalEntry), AppError>)
    requires
        old(cat).wf(),
        old(cat).accounted(),
    ensures
        final(cat).wf(),
        final(cat).accounted(),
        r is Ok <==> req.name@.len() > 0,
        match r {
            Ok((meta, e)) => {
                &&& meta@ == (RepoRec {
                    id: meta@.id,
                    name: req.name@,
                    max_size_bytes: match req.max_size_bytes {
                        Some(m) => m,
                        None => default_max_repo_size,
                    },
                    current_size_bytes: 0,
                    file_count: 0,
                    created_at: now_ms,
                    updated_at: now_ms,
                    last_accessed_at: now_ms,
                    default_ttl_seconds: req.default_ttl_seconds,
                    tags: Map::empty(),
                })
                &&& final(cat)@.repos == old(cat)@.repos.insert(meta@.id, meta@)
                &&& final(cat)@.files == old(cat)@.files.insert(
                    meta@.id,
                    Map::<Seq<char>, crate::models::FileRec>::empty(),
                )
                &&& e@ == (WalRec::RepoCreated {
                    id: meta@.id,
                    name: req.name@,
                    max_size_bytes: meta@.max_size_bytes,
                    default_ttl_seconds: req.default_ttl_seconds,
                    created_at: now_ms,
                })
            },
            Err(e) => e is BadRequest && final(cat)@ == old(cat)@ && *final(cat) == *old(cat),
        },
{
    if req.name.as_str().unicode_len() == 0 {
        return Err(AppError::BadRequest(String::from_str("Name is required")));
    }
    let id = fresh_repo_id();
    let max_size = match req.max_size_bytes {
        Some(m) => m,
        None => default_max_repo_size,
    };
    let meta = RepoMeta {
        id,
        name: req.name.clone(),
        max_size_bytes: max_size,
        current_size_bytes: 0,
        file_count: 0,
        created_at: now_ms,
        updated_at: now_ms,
        last_accessed_at: now_ms,
        default_ttl_seconds: req.default_ttl_seconds,
        tags: Vec::new(),
    };
    proof {
        assert(meta@.tags =~= Map::<Seq<char>, Seq<char>>::empty());
    }
    let out = meta.clone();
    let ghost c0 = *cat;
    let ghost metav = meta;
    cat.repo_upsert(meta);
    cat.bucket_set_empty(id);
    let entry = WalEntry::RepoCreated {
        id,
        name: req.name.clone(),
        max_size_bytes: max_size,
        default_ttl_seconds: req.default_ttl_seconds,
        created_at: now_ms,
    };
    proof {
        // the fresh repository holds nothing, and every other record is
        // untouched
        crate::catalog::lemma_repos_contains(c0.repos@, id);
        assert forall|j: int| 0 <= j < cat.repos@.len() implies {
            let r2 = (#[trigger] cat.repos@[j])@;
            r2.current_size_bytes == cat.size_of(r2.id) && r2.file_count == cat.count_of(r2.id)
        } by {
            assert(cat.files_of(id) == Seq::<crate::models::FileRec>::empty());
            if c0@.repos.contains_key(id) {
                let i = choose|i: int|
                    0 <= i < c0.repos@.len() && (#[trigger] c0.repos@[i]@.id) == id && cat.repos@
                        == c0.repos@.update(i, metav);
                if j == i {
                    assert(cat.repos@[j]@ == out@);
                } else {
                    assert(cat.repos@[j] == c0.repos@[j]);
                    let r2 = cat.repos@[j]@;
                    if i < j {
                        assert(c0.repos@[i]@.id != c0.repos@[j]@.id);
                    } else {
                        assert(c0.repos@[j]@.id != c0.repos@[i]@.id);
                    }
                    assert(r2.id != id);
                    assert(cat.files_of(r2.id) == c0.files_of(r2.id));
                }
            } else {
                assert(cat.repos@ == c0.repos@.push(metav));
                if j == c0.repos@.len() {
                    assert(cat.repos@[j]@ == out@);
                } else {
                    assert(cat.repos@[j] == c0.repos@[j]);
                    let r2 = cat.repos@[j]@;
                    assert(r2.id != id);
                    assert(cat.files_of(r2.id) == c0.files_of(r2.id));
                }
            }
        }
    }
    Ok((out, entry))
}

/// The order a repository listing uses.
pub enum RepoSortKey {
    NameAsc,
    CreatedDesc,
    SizeDesc,
}

/// The sort key that a query string selects; anything unknown falls
/// back to newest-first.
pub open spec fn spec_sort_key(sort: Option<Seq<char>>) -> RepoSortKey {
    match sort {
        Some(s) => if s == "name"@ {
            RepoSortKey::NameAsc
        } else if s == "size"@ {
            RepoSortKey::SizeDesc
        } else {
            RepoSortKey::CreatedDesc
        },
        None => RepoSortKey::CreatedDesc,
    }
}

/// Pick the sort key of a listing query.
pub fn parse_sort_key(sort: &Option<String>) -> (r: RepoSortKey)
    ensures
        r == spec_sort_key(opt_str_view(*sort)),
{
    match sort {
        Some(s) => {
            if str_eq(s.as_str(), "name") {
                RepoSortKey::NameAsc
            } else if str_eq(s.as_str(), "size") {
                RepoSortKey::SizeDesc
            } else {
                RepoSortKey::CreatedDesc
            }
        },
        None => RepoSortKey::CreatedDesc,
    }
}

/// The listing order: by name ascending, by creation time newest first,
/// or by size largest first.
pub open spec fn repo_le(key: RepoSortKey, a: RepoRec, b: RepoRec) -> bool {
    match key {
        RepoSortKey::NameAsc => lex_le(a.name, b.name),
        RepoSortKey::CreatedDesc => a.created_at >= b.created_at,
        RepoSortKey::SizeDesc => a.current_size_bytes >= b.current_size_bytes,
    }
}

/// Sorted ascending in the listing order.
pub open spec fn sorted_repos(s: Seq<RepoRec>, key: RepoSortKey) -> bool {
    forall|i: int, j: int| 0 <= i < j < s.len() ==> repo_le(key, #[trigger] s[i], #[trigger] s[j])
}

proof fn lemma_repo_le_total(key: RepoSortKey, a: RepoRec, b: RepoRec)
    ensures
        repo_le(key, a, b) || repo_le(key, b, a),
{
    if key is NameAsc {
        lemma_lex_total(a.name, b.name);
    }
}

proof fn lemma_repo_le_trans(key: RepoSortKey, a: RepoRec, b: RepoRec, c: RepoRec)
    requires
        repo_le(key, a, b),
        repo_le(key, b, c),
    ensures
        repo_le(key, a, c),
{
    if key is NameAsc {
        lemma_lex_le_trans(a.name, b.name, c.name);
    }
}

/// Decide the listing order.
fn repo_le_exec(key: &RepoSortKey, a: &RepoMeta, b: &RepoMeta) -> (r: bool)
    ensures
        r == repo_le(*key, a@, b@),
{
    match key {
        RepoSortKey::NameAsc => {
            proof {
                lemma_lex_total(a@.name, b@.name);
                if crate::text::lex_lt(b@.name, a@.name) && crate::text::lex_lt(
                    a@.name,
                    b@.name,
                ) {
                    lemma_lex_lt_trans(a@.name, b@.name, a@.name);
                }
                lemma_lex_lt_irrefl(a@.name);
            }
            !crate::text::str_lt(b.name.as_str(), a.name.as_str())
        },
        RepoSortKey::CreatedDesc => a.created_at >= b.created_at,
        RepoSortKey::SizeDesc => a.current_size_bytes >= b.current_size_bytes,
    }
}

/// Sort repository records into the listing order.
fn sort_repos(v: Vec<RepoMeta>, key: &RepoSortKey) -> (r: Vec<RepoMeta>)
    ensures
        sorted_repos(r@.map_values(|m: RepoMeta| m@), *key),
        r@.map_values(|m: RepoMeta| m@).to_multiset() == v@.map_values(|m: RepoMeta| m@)
            .to_multiset(),
{
    let ghost views = v@.map_values(|m: RepoMeta| m@);
    let mut out: Vec<RepoMeta> = Vec::new();
    let mut i: usize = 0;
    proof {
        broadcast use vstd::seq_lib::group_to_multiset_ensures;

        assert(out@.map_values(|m: RepoMeta| m@) =~= Seq::<RepoRec>::empty());
        assert(views.take(0) =~= Seq::<RepoRec>::empty());
    }
    while i < v.len()
        invariant
            i <= v@.len(),
            views == v@.map_values(|m: RepoMeta| m@),
            sorted_repos(out@.map_values(|m: RepoMeta| m@), *key),
            out@.map_values(|m: RepoMeta| m@).to_multiset() == views.take(i as int).to_multiset(),
        decreases v@.len() - i,
    {
        let item = v[i].clone();
        let ghost os = out@.map_values(|m: RepoMeta| m@);
        let mut pos: usize = 0;
        while pos < out.len() && repo_le_exec(key, &out[pos], &item)
            invariant
                pos <= out@.len(),
                os == out@.map_values(|m: RepoMeta| m@),
                forall|k: int| 0 <= k < pos ==> repo_le(*key, #[trigger] os[k], item@),
            decreases out@.len() - pos,
        {
            pos += 1;
        }
        proof {
            if pos < os.len() {
                lemma_repo_le_total(*key, os[pos as int], item@);
            }
        }
        out.insert(pos, item);
        proof {
            broadcast use vstd::seq_lib::group_to_multiset_ensures;

            let ns = out@.map_values(|m: RepoMeta| m@);
            assert(ns =~= os.insert(pos as int, item@));
            assert forall|x: int, y: int|
                0 <= x < y < ns.len() implies repo_le(*key, #[trigger] ns[x], #[trigger] ns[y]) by {
                if y < pos {
                } else if x < pos && y == pos {
                } else if x < pos && y > pos {
                    assert(ns[y] == os[y - 1]);
                } else if x == pos {
                    assert(ns[x] == item@);
                    assert(ns[y] == os[y - 1]);
                    if pos < os.len() {
                        assert(repo_le(*key, item@, os[pos as int]));
                        if y - 1 > pos {
                            lemma_repo_le_trans(*key, item@, os[pos as int], os[y - 1]);
                        }
                    }
                } else {
                    assert(ns[x] == os[x - 1]);
                    assert(ns[y] == os[y - 1]);
                }
            }
            assert(ns.remove(pos as int) =~= os);
            assert(ns.to_multiset().remove(item@) =~= os.to_multiset());
            assert(ns.to_multiset().contains(item@));
            assert(ns.to_multiset() =~= os.to_multiset().insert(item@));
            assert(views.take(i + 1) =~= views.take(i as int).push(views[i as int]));
            assert(item@ == views[i as int]);
        }
        i += 1;
    }
    proof {
        assert(views.take(v@.len() as int) =~= views);
    }
    out
}

/// List repositories, sorted as the query asks, cut to the requested
/// page.
pub fn list_repos(cat: &Catalog, page: u64, per_page: u64, sort: &Option<String>) -> (r: Vec<
    RepoMeta,
>)
    requires
        cat.wf(),
        1 <= page,
        1 <= per_page <= crate::MAX_PER_PAGE,
    ensures
        exists|s: Seq<RepoRec>|
            #![trigger s.len()]
            {
                let key = spec_sort_key(opt_str_view(*sort));
                &&& sorted_repos(s, key)
                &&& (forall|i: int|
                    0 <= i < s.len() ==> cat@.repos.contains_key((#[trigger] s[i]).id)
                        && s[i] == cat@.repos[s[i].id])
                &&& (forall|id: u128| #[trigger]
                    cat@.repos.contains_key(id) ==> exists|i: int|
                        0 <= i < s.len() && (#[trigger] s[i]).id == id)
                &&& (forall|i: int, j: int|
                    0 <= i < j < s.len() ==> (#[trigger] s[i].id) != (#[trigger] s[j].id))
                &&& ({
                    let start = if (page - 1) * per_page <= s.len() {
                        (page - 1) * per_page
                    } else {
                        s.len() as int
                    };
                    let end = if start + per_page <= s.len() {
                        start + per_page
                    } else {
                        s.len() as int
                    };
                    r@.map_values(|m: RepoMeta| m@) == s.subrange(start as int, end as int)
                })
            },
{
    let key = parse_sort_key(sort);
    let mut all: Vec<RepoMeta> = Vec::new();
    let mut k: usize = 0;
    proof {
        assert(all@.map_values(|m: RepoMeta| m@) =~= Seq::<RepoRec>::empty());
    }
    while k < cat.repo_count()
        invariant
            cat.wf(),
            k <= cat.repos@.len(),
            all@.len() == k,
            forall|x: int| 0 <= x < k ==> (#[trigger] all@[x])@ == cat.repos@[x]@,
        decreases cat.repos@.len() - k,
    {
        all.push(cat.repo_at(k).clone());
        k += 1;
    }
    let ghost avs = all@.map_values(|m: RepoMeta| m@);
    proof {
        assert(avs.len() == cat.repos@.len());
        assert forall|x: int| 0 <= x < avs.len() implies #[trigger] avs[x]
            == cat.repos@[x]@ by {}
    }
    let sorted = sort_repos(all, &key);
    let ghost s = sorted@.map_values(|m: RepoMeta| m@);
    proof {
        broadcast use vstd::seq_lib::group_to_multiset_ensures;

        // membership and uniqueness transfer through the sort
        assert forall|i: int|
            0 <= i < s.len() implies cat@.repos.contains_key((#[trigger] s[i]).id) && s[i]
            == cat@.repos[s[i].id] by {
            assert(s.contains(s[i]));
            assert(avs.to_multiset().count(s[i]) > 0);
            assert(avs.contains(s[i]));
            let x = choose|x: int| 0 <= x < avs.len() && avs[x] == s[i];
            crate::catalog::lemma_repos_index(cat.repos@, x);
        }
        assert forall|id: u128| #[trigger]
            cat@.repos.contains_key(id) implies exists|i: int|
            0 <= i < s.len() && (#[trigger] s[i]).id == id by {
            crate::catalog::lemma_repos_contains(cat.repos@, id);
            let x = choose|x: int| 0 <= x < cat.repos@.len() && (#[trigger] cat.repos@[x]@.id) == id;
            assert(avs[x] == cat.repos@[x]@);
            assert(avs.contains(avs[x]));
            assert(s.to_multiset().count(avs[x]) > 0);
            assert(s.contains(avs[x]));
            let i = choose|i: int| 0 <= i < s.len() && s[i] == avs[x];
            assert(s[i].id == id);
        }
        assert forall|i: int, j: int|
            0 <= i < j < s.len() implies (#[trigger] s[i].id) != (#[trigger] s[j].id) by {
            // two slots with one id would be two repository records with
            // the same identifier
            if s[i].id == s[j].id {
                assert(s[i] == cat@.repos[s[i].id]);
                assert(s[j] == cat@.repos[s[j].id]);
                assert(s[i] == s[j]);
                assert(avs.no_duplicates()) by {
                    assert forall|x: int, y: int|
                        0 <= x < avs.len() && 0 <= y < avs.len() && x != y implies avs[x]
                        != avs[y] by {
                        if x < y {
                            assert(cat.repos@[x]@.id != cat.repos@[y]@.id);
                        } else {
                            assert(cat.repos@[y]@.id != cat.repos@[x]@.id);
                        }
                    }
                }
                avs.lemma_multiset_has_no_duplicates();
                s.lemma_multiset_has_no_duplicates_conv();
                assert(s[i] != s[j]);
            }
        }
    }
    let start = crate::page_start(page, per_page, sorted.len());
    let end = if sorted.len() - start < per_page as usize {
        sorted.len()
    } else {
        start + per_page as usize
    };
    let mut out: Vec<RepoMeta> = Vec::new();
    let mut k2: usize = start;
    proof {
        assert(out@.map_values(|m: RepoMeta| m@) =~= s.subrange(start as int, start as int));
    }
    while k2 < end
        invariant
            start <= k2 <= end <= sorted@.len(),
            s == sorted@.map_values(|m: RepoMeta| m@),
            out@.map_values(|m: RepoMeta| m@) == s.subrange(start as int, k2 as int),
        decreases end - k2,
    {
        out.push(sorted[k2].clone());
        proof {
            assert(s.subrange(start as int, k2 + 1) =~= s.subrange(start as int, k2 as int).push(
                s[k2 as int],
            ));
            assert(out@.map_values(|m: RepoMeta| m@) =~= s.subrange(start as int, k2 + 1));
        }
        k2 += 1;
    }
    out
}

/// Look up a repository; the returned copy carries the current time as
/// its last access, which is not persisted.
pub fn get_repo(cat: &Catalog, repo_id: u128, now_ms: i64) -> (r: Result<RepoMeta, AppError>)
    requires
        cat.wf(),
    ensures
        r is Ok <==> cat@.repos.contains_key(repo_id),
        match r {
            Ok(meta) => meta@ == (RepoRec { last_accessed_at: now_ms, ..cat@.repos[repo_id] }),
            Err(e) => e is NotFound,
        },
{
    match cat.repo_get(repo_id) {
        Some(m) => {
            let mut out = m.clone();
            out.last_accessed_at = now_ms;
            Ok(out)
        },
        None => Err(AppError::NotFound(String::from_str("Repository not found"))),
    }
}

/// Patch a repository: present fields replace, absent fields are left
/// alone; the nested TTL option distinguishes "leave" from "clear". The
/// log records the patch as given.
pub fn update_repo(cat: &mut Catalog, repo_id: u128, req: &UpdateRepoRequest, now_ms: i64) -> (r:
    Result<(RepoMeta, WalEntry), AppError>)
    requires
        old(cat).wf(),
        old(cat).accounted(),
    ensures
        final(cat).wf(),
        final(cat).accounted(),
        r is Ok <==> old(cat)@.repos.contains_key(repo_id),
        match r {
            Ok((meta, e)) => {
                &&& meta@ == (RepoRec {
                    name: match req.name {
                        Some(n) => n@,
                        None => old(cat)@.repos[repo_id].name,
                    },
                    max_size_bytes: match req.max_size_bytes {
                        Some(m) => m,
                        None => old(cat)@.repos[repo_id].max_size_bytes,
                    },
                    default_ttl_seconds: match req.default_ttl_seconds {
                        Some(t) => t,
                        None => old(cat)@.repos[repo_id].default_ttl_seconds,
                    },
                    tags: match req.tags {
                        Some(t) => crate::models::tags_map(
                            t@.map_values(|p2: (String, String)| (p2.0@, p2.1@)),
                        ),
                        None => old(cat)@.repos[repo_id].tags,
                    },
                    updated_at: now_ms,
                    ..old(cat)@.repos[repo_id]
                })
                &&& final(cat)@.repos == old(cat)@.repos.insert(repo_id, meta@)
                &&& final(cat)@.files == old(cat)@.files
                &&& e@ == (WalRec::RepoUpdated {
                    id: repo_id,
                    name: opt_str_view(req.name),
                    max_size_bytes: req.max_size_bytes,
                    default_ttl_seconds: req.default_ttl_seconds,
                    tags: opt_tags_view(req.tags),
                    updated_at: now_ms,
                })
            },
            Err(e) => e is NotFound && final(cat)@ == old(cat)@ && *final(cat) == *old(cat),
        },
{
    let ghost c0 = *cat;
    let base = match cat.repo_get(repo_id) {
        Some(m) => m.clone(),
        None => {
            return Err(AppError::NotFound(String::from_str("Repository not found")));
        },
    };
    let mut meta = base;
    match &req.name {
        Some(n) => {
            meta.name = n.clone();
        },
        None => {},
    }
    match req.max_size_bytes {
        Some(m) => {
            meta.max_size_bytes = m;
        },
        None => {},
    }
    match req.default_ttl_seconds {
        Some(t) => {
            meta.default_ttl_seconds = t;
        },
        None => {},
    }
    match &req.tags {
        Some(t) => {
            meta.tags = clone_tags(t);
        },
        None => {},
    }
    meta.updated_at = now_ms;
    let out = meta.clone();
    let ghost metav = meta;
    cat.repo_upsert(meta);
    let entry = WalEntry::RepoUpdated {
        id: repo_id,
        name: match &req.name {
            Some(n) => Some(n.clone()),
            None => None,
        },
        max_size_bytes: req.max_size_bytes,
        default_ttl_seconds: req.default_ttl_seconds,
        tags: match &req.tags {
            Some(t) => Some(clone_tags(t)),
            None => None,
        },
        updated_at: now_ms,
    };
    proof {
        // size accounting is untouched by a patch
        crate::catalog::lemma_repos_contains(c0.repos@, repo_id);
        assert forall|j: int| 0 <= j < cat.repos@.len() implies {
            let r2 = (#[trigger] cat.repos@[j])@;
            r2.current_size_bytes == cat.size_of(r2.id) && r2.file_count == cat.count_of(r2.id)
        } by {
            let i = choose|i: int|
                0 <= i < c0.repos@.len() && (#[trigger] c0.repos@[i]@.id) == repo_id && cat.repos@
                    == c0.repos@.update(i, metav);
            crate::catalog::lemma_repos_index(c0.repos@, i);
            if j == i {
                assert(cat.repos@[j]@ == metav@);
                assert(metav@.id == repo_id);
                assert(metav@.current_size_bytes == c0@.repos[repo_id].current_size_bytes);
            } else {
                assert(cat.repos@[j] == c0.repos@[j]);
            }
            assert(cat.files_of(cat.repos@[j]@.id) == c0.files_of(cat.repos@[j]@.id));
        }
    }
    Ok((out, entry))
}

/// Delete a repository: its record and its whole file index leave the
/// catalog. The caller removes the on-disk tree.
pub fn delete_repo(cat: &mut Catalog, repo_id: u128) -> (r: Result<WalEntry, AppError>)
    requires
        old(cat).wf(),
        old(cat).accounted(),
    ensures
        final(cat).wf(),
        final(cat).accounted(),
        r is Ok <==> old(cat)@.repos.contains_key(repo_id),
        match r {
            Ok(e) => {
                &&& final(cat)@.repos == old(cat)@.repos.remove(repo_id)
                &&& final(cat)@.files == old(cat)@.files.remove(repo_id)
                &&& e@ == (WalRec::RepoDeleted { id: repo_id })
            },
            Err(e) => e is NotFound && final(cat)@ == old(cat)@ && *final(cat) == *old(cat),
        },
{
    let ghost c0 = *cat;
    if cat.repo_get(repo_id).is_none() {
        return Err(AppError::NotFound(String::from_str("Repository not found")));
    }
    let _ = cat.repo_remove(repo_id);
    cat.bucket_remove(repo_id);
    let entry = WalEntry::RepoDeleted { id: repo_id };
    proof {
        assert forall|j: int| 0 <= j < cat.repos@.len() implies {
            let r2 = (#[trigger] cat.repos@[j])@;
            r2.current_size_bytes == cat.size_of(r2.id) && r2.file_count == cat.count_of(r2.id)
        } by {
            let i = choose|i: int|
                0 <= i < c0.repos@.len() && (#[trigger] c0.repos@[i]@.id) == repo_id && cat.repos@
                    == c0.repos@.remove(i);
            let j0 = if j < i {
                j
            } else {
                j + 1
            };
            assert(cat.repos@[j] == c0.repos@[j0]);
            let r2 = cat.repos@[j]@;
            assert(r2.id != repo_id) by {
                if j0 < i {
                    assert(c0.repos@[j0]@.id != c0.repos@[i]@.id);
                } else {
                    assert(c0.repos@[i]@.id != c0.repos@[j0]@.id);
                }
            }
            assert(cat.files_of(r2.id) == c0.files_of(r2.id));
        }
    }
    Ok(entry)
}

} // verus!
