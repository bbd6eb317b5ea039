//! The quota and eviction engine: score files by access rate, evict the
//! least valuable first until enough bytes are freed.

use vstd::prelude::*;
use vstd::seq_lib::*;

use crate::catalog::{lemma_sum_concat, sum_sizes, Catalog};
use crate::file_service::{delete_file, lemma_delete_seq_snoc, spec_delete_file, spec_delete_seq};
use crate::models::{FileMeta, FileRec};
use crate::text::{lemma_lex_le_trans, lemma_lex_total, lex_le};
use crate::wal::{WalEntry, WalRec};
use vstd::string::*;

verus! {

/// Age of a file in whole seconds, at least one.
pub open spec fn age_secs(now: i64, created: i64) -> int {
    if now <= created {
        1
    } else {
        let q = ((now - created) as int) / 1000;
        if q < 1 {
            1
        } else {
            q
        }
    }
}

/// Strictly lower eviction score: fewer accesses per second of age,
/// compared exactly by cross-multiplication.
pub open spec fn score_lt(a: FileRec, b: FileRec, now: i64) -> bool {
    (a.access_count as int) * age_secs(now, b.created_at) < (b.access_count as int) * age_secs(
        now,
        a.created_at,
    )
}

/// Eviction order: lower score first; ties broken by path ascending.
pub open spec fn evict_le(a: FileRec, b: FileRec, now: i64) -> bool {
    score_lt(a, b, now) || (!score_lt(b, a, now) && lex_le(a.path, b.path))
}

/// Sorted ascending in eviction order.
pub open spec fn sorted_evict(s: Seq<FileRec>, now: i64) -> bool {
    forall|i: int, j: int| 0 <= i < j < s.len() ==> evict_le(#[trigger] s[i], #[trigger] s[j], now)
}

pub proof fn lemma_evict_le_total(a: FileRec, b: FileRec, now: i64)
    ensures
        evict_le(a, b, now) || evict_le(b, a, now),
{
    if !score_lt(a, b, now) && !score_lt(b, a, now) {
        lemma_lex_total(a.path, b.path);
    }
}

pub proof fn lemma_score_lt_trans(a: FileRec, b: FileRec, c: FileRec, now: i64)
    requires
        score_lt(a, b, now),
        score_lt(b, c, now),
    ensures
        score_lt(a, c, now),
{
    let aa = a.access_count as int;
    let ab = b.access_count as int;
    let ac = c.access_count as int;
    let ga = age_secs(now, a.created_at);
    let gb = age_secs(now, b.created_at);
    let gc = age_secs(now, c.created_at);
    assert(ga >= 1 && gb >= 1 && gc >= 1);
    assert(aa >= 0 && ab >= 0 && ac >= 0);
    assert(aa * gc < ac * ga) by (nonlinear_arith)
        requires
            aa * gb < ab * ga,
            ab * gc < ac * gb,
            ga >= 1,
            gb >= 1,
            gc >= 1,
            aa >= 0,
            ab >= 0,
            ac >= 0,
    ;
}

pub proof fn lemma_score_shift(a: FileRec, b: FileRec, c: FileRec, now: i64)
    requires
        score_lt(a, b, now),
        !score_lt(c, b, now),
        !score_lt(b, c, now),
    ensures
        score_lt(a, c, now),
{
    let aa = a.access_count as int;
    let ab = b.access_count as int;
    let ac = c.access_count as int;
    let ga = age_secs(now, a.created_at);
    let gb = age_secs(now, b.created_at);
    let gc = age_secs(now, c.created_at);
    assert(ga >= 1 && gb >= 1 && gc >= 1);
    assert(aa * gc < ac * ga) by (nonlinear_arith)
        requires
            aa * gb < ab * ga,
            ab * gc == ac * gb,
            ga >= 1,
            gb >= 1,
            gc >= 1,
    ;
}

pub proof fn lemma_score_shift_left(a: FileRec, b: FileRec, c: FileRec, now: i64)
    requires
        !score_lt(a, b, now),
        !score_lt(b, a, now),
        score_lt(b, c, now),
    ensures
        score_lt(a, c, now),
{
    let aa = a.access_count as int;
    let ab = b.access_count as int;
    let ac = c.access_count as int;
    let ga = age_secs(now, a.created_at);
    let gb = age_secs(now, b.created_at);
    let gc = age_secs(now, c.created_at);
    assert(ga >= 1 && gb >= 1 && gc >= 1);
    assert(aa * gc < ac * ga) by (nonlinear_arith)
        requires
            aa * gb == ab * ga,
            ab * gc < ac * gb,
            ga >= 1,
            gb >= 1,
            gc >= 1,
    ;
}

pub proof fn lemma_evict_le_trans(a: FileRec, b: FileRec, c: FileRec, now: i64)
    requires
        evict_le(a, b, now),
        evict_le(b, c, now),
    ensures
        evict_le(a, c, now),
{
    let aa = a.access_count as int;
    let ab = b.access_count as int;
    let ac = c.access_count as int;
    let ga = age_secs(now, a.created_at);
    let gb = age_secs(now, b.created_at);
    let gc = age_secs(now, c.created_at);
    if score_lt(a, b, now) {
        if score_lt(b, c, now) {
            lemma_score_lt_trans(a, b, c, now);
        } else {
            // b and c tie on score
            lemma_score_shift(a, b, c, now);
        }
    } else {
        // a and b tie on score
        if score_lt(b, c, now) {
            lemma_score_shift_left(a, b, c, now);
        } else {
            // both ties: scores of a and c tie as well
            assert(aa * gc == ac * ga) by (nonlinear_arith)
                requires
                    aa * gb == ab * ga,
                    ab * gc == ac * gb,
                    ga >= 1,
                    gb >= 1,
                    gc >= 1,
            ;
            lemma_lex_le_trans(a.path, b.path, c.path);
        }
    }
}

/// Age of a file in whole seconds, at least one.
pub fn age_secs_exec(now: i64, created: i64) -> (r: u64)
    ensures
        r == age_secs(now, created),
        1 <= r < 0x8000_0000_0000_0000u64,
{
    if now <= created {
        1
    } else {
        let diff: u128 = ((now as i128) - (created as i128)) as u128;
        let q: u128 = diff / 1000;
        if q < 1 {
            1
        } else {
            q as u64
        }
    }
}

/// Decide `score_lt` exactly, in 128-bit arithmetic.
pub fn score_lt_exec(a: &FileMeta, b: &FileMeta, now_ms: i64) -> (r: bool)
    ensures
        r == score_lt(a@, b@, now_ms),
{
    let ga = age_secs_exec(now_ms, a.created_at);
    let gb = age_secs_exec(now_ms, b.created_at);
    proof {
        assert((a@.access_count as int) * (gb as int) <= (u64::MAX as int) * (gb as int)
            && (u64::MAX as int) * (gb as int) < (u64::MAX as int) * 0x8000_0000_0000_0000)
            by (nonlinear_arith)
            requires
                a@.access_count <= u64::MAX,
                1 <= gb < 0x8000_0000_0000_0000u64,
        ;
        assert((b@.access_count as int) * (ga as int) <= (u64::MAX as int) * (ga as int)
            && (u64::MAX as int) * (ga as int) < (u64::MAX as int) * 0x8000_0000_0000_0000)
            by (nonlinear_arith)
            requires
                b@.access_count <= u64::MAX,
                1 <= ga < 0x8000_0000_0000_0000u64,
        ;
    }
    let left: u128 = (a.access_count as u128) * (gb as u128);
    let right: u128 = (b.access_count as u128) * (ga as u128);
    left < right
}

/// Decide the eviction order exactly.
pub fn evict_le_exec(a: &FileMeta, b: &FileMeta, now_ms: i64) -> (r: bool)
    ensures
        r == evict_le(a@, b@, now_ms),
{
    if score_lt_exec(a, b, now_ms) {
        true
    } else if score_lt_exec(b, a, now_ms) {
        false
    } else {
        proof {
            lemma_lex_total(a@.path, b@.path);
            if crate::text::lex_lt(b@.path, a@.path) && crate::text::lex_lt(a@.path, b@.path) {
                crate::text::lemma_lex_lt_trans(a@.path, b@.path, a@.path);
                crate::text::lemma_lex_lt_irrefl(a@.path);
            }
            crate::text::lemma_lex_lt_irrefl(a@.path);
        }
        !crate::text::str_lt(b.path.as_str(), a.path.as_str())
    }
}

/// Sort a snapshot of file records into eviction order (ascending by
/// score, ties by path).
fn sort_for_eviction(v: Vec<FileMeta>, now_ms: i64) -> (r: Vec<FileMeta>)
    ensures
        sorted_evict(r@.map_values(|m: FileMeta| m@), now_ms),
        r@.map_values(|m: FileMeta| m@).to_multiset() == v@.map_values(|m: FileMeta| m@)
            .to_multiset(),
{
    let ghost views = v@.map_values(|m: FileMeta| m@);
    let mut out: Vec<FileMeta> = Vec::new();
    let mut i: usize = 0;
    proof {
        broadcast use vstd::seq_lib::group_to_multiset_ensures;

        assert(out@.map_values(|m: FileMeta| m@) =~= Seq::<FileRec>::empty());
        assert(views.take(0) =~= Seq::<FileRec>::empty());
    }
    while i < v.len()
        invariant
            i <= v@.len(),
            views == v@.map_values(|m: FileMeta| m@),
            sorted_evict(out@.map_values(|m: FileMeta| m@), now_ms),
            out@.map_values(|m: FileMeta| m@).to_multiset() == views.take(i as int).to_multiset(),
        decreases v@.len() - i,
    {
        let item = v[i].clone();
        let ghost os = out@.map_values(|m: FileMeta| m@);
        let mut pos: usize = 0;
        while pos < out.len() && evict_le_exec(&out[pos], &item, now_ms)
            invariant
                pos <= out@.len(),
                os == out@.map_values(|m: FileMeta| m@),
                forall|k: int| 0 <= k < pos ==> evict_le(#[trigger] os[k], item@, now_ms),
            decreases out@.len() - pos,
        {
            pos += 1;
        }
        proof {
            if pos < os.len() {
                lemma_evict_le_total(os[pos as int], item@, now_ms);
            }
        }
        out.insert(pos, item);
        proof {
            broadcast use vstd::seq_lib::group_to_multiset_ensures;

            let ns = out@.map_values(|m: FileMeta| m@);
            assert(ns =~= os.insert(pos as int, item@));
            // the insertion keeps the order
            assert forall|x: int, y: int|
                0 <= x < y < ns.len() implies evict_le(#[trigger] ns[x], #[trigger] ns[y], now_ms)
            by {
                if y < pos {
                } else if x < pos && y == pos {
                } else if x < pos && y > pos {
                    assert(ns[y] == os[y - 1]);
                } else if x == pos {
                    assert(ns[x] == item@);
                    assert(ns[y] == os[y - 1]);
                    if pos < os.len() {
                        assert(evict_le(item@, os[pos as int], now_ms));
                        if y - 1 > pos {
                            lemma_evict_le_trans(item@, os[pos as int], os[y - 1], now_ms);
                        }
                    }
                } else {
                    assert(ns[x] == os[x - 1]);
                    assert(ns[y] == os[y - 1]);
                }
            }
            // and adds exactly the new record to the multiset
            assert(ns.remove(pos as int) =~= os);
            assert(ns.to_multiset().remove(item@) =~= os.to_multiset());
            assert(ns.to_multiset().contains(item@));
            assert(ns.to_multiset() =~= os.to_multiset().insert(item@));
            assert(views.take(i + 1) =~= views.take(i as int).push(views[i as int]));
            assert(item@ == views[i as int]);
        }
        i += 1;
    }
    proof {
        assert(views.take(v@.len() as int) =~= views);
    }
    out
}

/// Sequences with the same multiset of records hold the same bytes.
pub proof fn lemma_sum_multiset(a: Seq<FileRec>, b: Seq<FileRec>)
    requires
        a.to_multiset() == b.to_multiset(),
    ensures
        sum_sizes(a) == sum_sizes(b),
    decreases a.len(),
{
    broadcast use vstd::seq_lib::group_to_multiset_ensures;

    if a.len() == 0 {
        assert(b.to_multiset().len() == 0);
    } else {
        let x = a.last();
        assert(a.drop_last().push(x) =~= a);
        assert(a.to_multiset().contains(x)) by {
            assert(a.contains(x));
        }
        assert(b.to_multiset().count(x) > 0);
        assert(b.contains(x));
        let j = choose|j: int| 0 <= j < b.len() && b[j] == x;
        assert(b.remove(j).to_multiset() =~= b.to_multiset().remove(x));
        assert(a.drop_last().to_multiset() =~= a.to_multiset().remove(x)) by {
            assert(a.drop_last().push(x).to_multiset() =~= a.drop_last().to_multiset().insert(x));
        }
        lemma_sum_multiset(a.drop_last(), b.remove(j));
        crate::catalog::lemma_sum_remove(b, j);
    }
}

/// The paths of a record snapshot taken from a well-formed table are
/// pairwise distinct, and stay so across a reordering.
pub proof fn lemma_paths_distinct(recs: Seq<FileRec>, ss: Seq<FileRec>)
    requires
        forall|k: int, l: int| 0 <= k < l < recs.len() ==> (#[trigger] recs[k].path) != (#[trigger] recs[l].path),
        ss.to_multiset() == recs.to_multiset(),
    ensures
        forall|k: int, l: int| 0 <= k < l < ss.len() ==> (#[trigger] ss[k].path) != (#[trigger] ss[l].path),
{
    broadcast use vstd::seq_lib::group_to_multiset_ensures;

    assert(recs.no_duplicates()) by {
        assert forall|k: int, l: int|
            0 <= k < recs.len() && 0 <= l < recs.len() && k != l implies recs[k] != recs[l] by {
            if k < l {
                assert(recs[k].path != recs[l].path);
            } else {
                assert(recs[l].path != recs[k].path);
            }
        }
    }
    recs.lemma_multiset_has_no_duplicates();
    ss.lemma_multiset_has_no_duplicates_conv();
    assert forall|k: int, l: int| 0 <= k < l < ss.len() implies (#[trigger] ss[k].path) != (
    #[trigger] ss[l].path) by {
        if ss[k].path == ss[l].path {
            assert(ss[k] != ss[l]);
            assert(ss.contains(ss[k]) && ss.contains(ss[l]));
            assert(recs.to_multiset().count(ss[k]) > 0);
            assert(recs.to_multiset().count(ss[l]) > 0);
            assert(recs.contains(ss[k]));
            assert(recs.contains(ss[l]));
            let i1 = choose|i: int| 0 <= i < recs.len() && recs[i] == ss[k];
            let i2 = choose|i: int| 0 <= i < recs.len() && recs[i] == ss[l];
            assert(i1 != i2);
            if i1 < i2 {
                assert(recs[i1].path != recs[i2].path);
            } else {
                assert(recs[i2].path != recs[i1].path);
            }
        }
    }
}

/// What a correct eviction chose: the victims are a minimal prefix of
/// some eviction-ordered arrangement of the repository's files, their
/// sizes sum to `freed`, and the pass stopped only once `freed` covered
/// `needed` or nothing was left.
#[verifier::opaque]
pub open spec fn eviction_outcome(
    files0: Seq<FileRec>,
    victims: Seq<Seq<char>>,
    freed: u64,
    needed: u64,
    now: i64,
) -> bool {
    exists|ss: Seq<FileRec>|
        {
            &&& (#[trigger] ss.to_multiset()) == files0.to_multiset()
            &&& sorted_evict(ss, now)
            &&& victims.len() <= ss.len()
            &&& victims == ss.take(victims.len() as int).map_values(|f: FileRec| f.path)
            &&& freed == sum_sizes(ss.take(victims.len() as int))
            &&& (freed >= needed || victims.len() == ss.len())
            &&& forall|k: int| 0 <= k < victims.len() ==> sum_sizes(#[trigger] ss.take(k)) < needed
        }
}

/// What one eviction pass did: the bytes freed, the log records to
/// append, and the victims whose blobs the caller removes.
pub struct EvictOutcome {
    pub freed: u64,
    pub wal: Vec<WalEntry>,
    pub victims: Vec<String>,
}

/// Evict files from a repository until at least `needed_bytes` are
/// freed or no files remain. Victims are taken in eviction order:
/// lowest score first, ties by path. Returns the freed byte count with
/// the log records of the deletions.
pub fn evict_bytes(cat: &mut Catalog, repo_id: u128, needed_bytes: u64, now_ms: i64) -> (r:
    EvictOutcome)
    requires
        old(cat).wf(),
        old(cat).accounted(),
        old(cat)@.repos.contains_key(repo_id),
    ensures
        final(cat).wf(),
        final(cat).accounted(),
        final(cat)@.repos.contains_key(repo_id),
        final(cat)@.repos.dom() == old(cat)@.repos.dom(),
        r.freed <= old(cat)@.repos[repo_id].current_size_bytes,
        final(cat)@.repos[repo_id].current_size_bytes == old(cat)@.repos[repo_id].current_size_bytes
            - r.freed,
        final(cat)@.repos[repo_id].max_size_bytes == old(cat)@.repos[repo_id].max_size_bytes,
        r.wal@.map_values(|e: WalEntry| e@) == r.victims@.map_values(
            |s: String| WalRec::FileDeleted { repo_id, path: s@ },
        ),
        final(cat)@ == spec_delete_seq(
            old(cat)@,
            repo_id,
            crate::text::str_views(r.victims@),
            now_ms,
        ),
        eviction_outcome(
            old(cat).files_of(repo_id),
            crate::text::str_views(r.victims@),
            r.freed,
            needed_bytes,
            now_ms,
        ),
        forall|id2: u128|
            id2 != repo_id ==> (#[trigger] final(cat).files_of(id2)) == old(cat).files_of(id2),
        forall|id2: u128|
            id2 != repo_id && old(cat)@.repos.contains_key(id2) ==> (#[trigger] final(cat)@.repos[id2]) == old(cat)@.repos[id2],
{
    let ghost c0 = *cat;
    // snapshot the repository's files
    let mut snapshot: Vec<FileMeta> = Vec::new();
    match cat.table_get(repo_id) {
        Some(t) => {
            let mut k: usize = 0;
            while k < t.entries.len()
                invariant
                    k <= t.entries@.len(),
                    snapshot@.map_values(|m: FileMeta| m@) == t.entries@.subrange(
                        0,
                        k as int,
                    ).map_values(|m: FileMeta| m@),
                decreases t.entries@.len() - k,
            {
                snapshot.push(t.entries[k].clone());
                proof {
                    assert(t.entries@.subrange(0, k + 1).map_values(|m: FileMeta| m@)
                        =~= t.entries@.subrange(0, k as int).map_values(|m: FileMeta| m@).push(
                        t.entries@[k as int]@,
                    ));
                    assert(snapshot@.map_values(|m: FileMeta| m@) =~= t.entries@.subrange(
                        0,
                        k + 1,
                    ).map_values(|m: FileMeta| m@));
                }
                k += 1;
            }
            proof {
                assert(t.entries@.subrange(0, t.entries@.len() as int) =~= t.entries@);
                assert(snapshot@.map_values(|m: FileMeta| m@) =~= cat.files_of(repo_id));
            }
        },
        None => {
            proof {
                assert(snapshot@.map_values(|m: FileMeta| m@) =~= cat.files_of(repo_id));
            }
        },
    }
    let ghost recs = c0.files_of(repo_id);
    proof {
        assert(snapshot@.map_values(|m: FileMeta| m@) == recs);
        // paths in the snapshot are pairwise distinct
        if crate::catalog::has_bucket(c0.buckets@, repo_id) {
            let t = crate::catalog::bucket_idx(c0.buckets@, repo_id);
            assert(c0.buckets@[t].repo_id == repo_id);
            assert(recs == c0.buckets@[t].table.recs());
            assert forall|x: int, y: int| 0 <= x < y < recs.len() implies (#[trigger] recs[x].path)
                != (#[trigger] recs[y].path) by {
                assert(recs[x] == c0.buckets@[t].table.entries@[x]@);
                assert(recs[y] == c0.buckets@[t].table.entries@[y]@);
            }
        }
    }
    let sorted = sort_for_eviction(snapshot, now_ms);
    let ghost ss = sorted@.map_values(|m: FileMeta| m@);
    proof {
        lemma_paths_distinct(recs, ss);
        lemma_sum_multiset(ss, recs);
        // the repository's stored size equals the snapshot's total
        crate::catalog::lemma_repos_contains(c0.repos@, repo_id);
        let ri = choose|i: int| 0 <= i < c0.repos@.len() && (#[trigger] c0.repos@[i]@.id) == repo_id;
        crate::catalog::lemma_repos_index(c0.repos@, ri);
        assert(c0@.repos[repo_id].current_size_bytes == c0.size_of(repo_id));
        assert(ss.take(0) =~= Seq::<FileRec>::empty());
        // every snapshot entry exists in the catalog
        broadcast use vstd::seq_lib::group_to_multiset_ensures;

        assert forall|k: int| 0 <= k < ss.len() implies c0.file_exists(
            repo_id,
            (#[trigger] ss[k]).path,
        ) by {
            assert(ss.contains(ss[k]));
            assert(recs.to_multiset().count(ss[k]) > 0);
            assert(recs.contains(ss[k]));
            let x = choose|x: int| 0 <= x < recs.len() && recs[x] == ss[k];
            let t = crate::catalog::bucket_idx(c0.buckets@, repo_id);
            assert(crate::catalog::has_bucket(c0.buckets@, repo_id));
            assert(c0.buckets@[t].repo_id == repo_id);
            crate::catalog::lemma_buckets_index(c0.buckets@, t);
            assert(c0.buckets@[t].table.entries@[x]@ == ss[k]);
            crate::catalog::lemma_table_index(c0.buckets@[t].table.entries@, x);
        }
    }
    let mut freed: u64 = 0;
    let mut wal: Vec<WalEntry> = Vec::new();
    let mut victims: Vec<String> = Vec::new();
    let mut i: usize = 0;
    while i < sorted.len()
        invariant
            cat.wf(),
            cat.accounted(),
            c0.wf(),
            c0.accounted(),
            c0@.repos.contains_key(repo_id),
            c0@.repos[repo_id].current_size_bytes == c0.size_of(repo_id),
            sum_sizes(ss) == c0.size_of(repo_id),
            ss.to_multiset() == c0.files_of(repo_id).to_multiset(),
            cat@.repos.contains_key(repo_id),
            cat@.repos.dom() == c0@.repos.dom(),
            ss == sorted@.map_values(|m: FileMeta| m@),
            sorted_evict(ss, now_ms),
            forall|k: int, l: int|
                0 <= k < l < ss.len() ==> (#[trigger] ss[k].path) != (#[trigger] ss[l].path),
            victims@.len() == i,
            i <= ss.len(),
            crate::text::str_views(victims@) == ss.take(i as int).map_values(
                |f: FileRec| f.path,
            ),
            wal@.map_values(|e: WalEntry| e@) == victims@.map_values(
                |s: String| WalRec::FileDeleted { repo_id, path: s@ },
            ),
            freed == sum_sizes(ss.take(i as int)),
            forall|k: int| 0 <= k < i ==> sum_sizes(#[trigger] ss.take(k)) < needed_bytes,
            cat@ == spec_delete_seq(c0@, repo_id, crate::text::str_views(victims@), now_ms),
            forall|k: int|
                i <= k < ss.len() ==> cat.file_exists(repo_id, (#[trigger] ss[k]).path),
            cat@.repos[repo_id].current_size_bytes == c0@.repos[repo_id].current_size_bytes
                - freed,
            cat@.repos[repo_id].max_size_bytes == c0@.repos[repo_id].max_size_bytes,
            freed <= c0@.repos[repo_id].current_size_bytes,
            forall|id2: u128|
                id2 != repo_id ==> (#[trigger] cat.files_of(id2)) == c0.files_of(id2),
            forall|id2: u128|
                id2 != repo_id && c0@.repos.contains_key(id2) ==> (#[trigger] cat@.repos[id2])
                    == c0@.repos[id2],
        ensures
            victims@.len() == i <= ss.len(),
            freed >= needed_bytes || i == ss.len(),
        decreases ss.len() - i,
    {
        if freed >= needed_bytes {
            break ;
        }
        let ghost vs0 = crate::text::str_views(victims@);
        let ghost catpre = *cat;
        proof {
            assert(cat.file_exists(repo_id, ss[i as int].path));
            assert(sorted@[i as int]@ == ss[i as int]);
            crate::catalog::lemma_file_key(*cat, repo_id, ss[i as int].path);
        }
        match delete_file(cat, repo_id, sorted[i].path.as_str(), now_ms) {
            Ok(e) => {
                let ghost wal0 = wal@;
                let ghost victims0 = victims@;
                let ghost erec = e@;
                wal.push(e);
                victims.push(sorted[i].path.clone());
                proof {
                    assert(wal@.map_values(|e2: WalEntry| e2@) =~= wal0.map_values(
                        |e2: WalEntry| e2@,
                    ).push(erec));
                    assert(victims@.map_values(|s: String| WalRec::FileDeleted { repo_id, path: s@ })
                        =~= victims0.map_values(
                        |s: String| WalRec::FileDeleted { repo_id, path: s@ },
                    ).push(WalRec::FileDeleted { repo_id, path: ss[i as int].path }));
                    let vs1 = crate::text::str_views(victims@);
                    assert(vs1 =~= vs0.push(ss[i as int].path));
                    lemma_delete_seq_snoc(c0@, repo_id, vs0, ss[i as int].path, now_ms);
                    assert(ss.take(i + 1) =~= ss.take(i as int).push(ss[i as int]));
                    crate::catalog::lemma_sum_push(ss.take(i as int), ss[i as int]);
                    // the deleted record is the snapshot's record
                    assert(catpre@.files[repo_id][ss[i as int].path].size_bytes
                        == ss[i as int].size_bytes) by {
                        lemma_snapshot_entry(c0, catpre, repo_id, ss, vs0, i as int, now_ms);
                    }
                    assert(ss.take(i + 1).map_values(|f: FileRec| f.path) =~= ss.take(
                        i as int,
                    ).map_values(|f: FileRec| f.path).push(ss[i as int].path));
                    assert(crate::text::str_views(victims@) =~= ss.take(i + 1).map_values(
                        |f: FileRec| f.path,
                    ));
                    assert(wal@.map_values(|e: WalEntry| e@) =~= victims@.map_values(
                        |s: String| WalRec::FileDeleted { repo_id, path: s@ },
                    ));
                    // later snapshot entries still exist
                    assert forall|k: int|
                        i + 1 <= k < ss.len() implies cat.file_exists(
                        repo_id,
                        (#[trigger] ss[k]).path,
                    ) by {
                        assert(ss[k].path != ss[i as int].path);
                    }
                    // the running total stays within the repository's size
                    assert(ss.take(i + 1) + ss.skip(i + 1) =~= ss);
                    lemma_sum_concat(ss.take(i + 1), ss.skip(i + 1));
                    crate::catalog::lemma_sum_nonneg(ss.skip(i + 1));
                    // other repositories are untouched
                    assert forall|id2: u128|
                        id2 != repo_id implies (#[trigger] cat.files_of(id2)) == c0.files_of(
                        id2,
                    ) by {
                        assert(cat.files_of(id2) == catpre.files_of(id2));
                    }
                    assert forall|id2: u128|
                        id2 != repo_id && c0@.repos.contains_key(id2) implies (
                    #[trigger] cat@.repos[id2]) == c0@.repos[id2] by {
                        assert(cat@ == spec_delete_file(catpre@, repo_id, ss[i as int].path, now_ms));
                    }
                }
                freed = freed + sorted[i].size_bytes;
                proof {
                    assert(freed == sum_sizes(ss.take(i + 1)));
                }
            },
            Err(_) => {
                // unreachable: the snapshot names an existing file and
                // only earlier victims, all with other paths, were deleted
                proof {
                    assert(false);
                }
            },
        }
        i += 1;
    }
    proof {
        assert(victims@.len() <= ss.len());
        // the loop facts witness the eviction-outcome predicate
        reveal(eviction_outcome);
        assert(ss.to_multiset() == c0.files_of(repo_id).to_multiset());
        assert(eviction_outcome(
            c0.files_of(repo_id),
            crate::text::str_views(victims@),
            freed,
            needed_bytes,
            now_ms,
        ));
    }
    EvictOutcome { freed, wal, victims }
}

/// One repository's background eviction.
pub struct RepoEviction {
    pub repo_id: u128,
    pub outcome: EvictOutcome,
}

/// One repository's turn in the background sweep: an eviction pass for
/// exactly the overrun when the repository is over its ceiling, and no
/// work at all otherwise.
fn sweep_one(cat: &mut Catalog, id: u128, now_ms: i64) -> (r: Option<RepoEviction>)
    requires
        old(cat).wf(),
        old(cat).accounted(),
        old(cat)@.repos.contains_key(id),
    ensures
        final(cat).wf(),
        final(cat).accounted(),
        final(cat)@.repos.dom() == old(cat)@.repos.dom(),
        match r {
            None => old(cat)@.repos[id].current_size_bytes <= old(cat)@.repos[id].max_size_bytes && *final(cat) == *old(cat),
            Some(ev) => {
                &&& ev.repo_id == id
                &&& old(cat)@.repos[id].current_size_bytes > old(cat)@.repos[id].max_size_bytes
                &&& eviction_outcome(
                    old(cat).files_of(id),
                    crate::text::str_views(ev.outcome.victims@),
                    ev.outcome.freed,
                    (old(cat)@.repos[id].current_size_bytes - old(cat)@.repos[id].max_size_bytes) as u64,
                    now_ms,
                )
                &&& final(cat)@.repos[id].current_size_bytes == old(cat)@.repos[id].current_size_bytes - ev.outcome.freed
                &&& ev.outcome.wal@.map_values(|e: WalEntry| e@)
                    == ev.outcome.victims@.map_values(
                    |s: String| WalRec::FileDeleted { repo_id: id, path: s@ },
                )
                &&& (forall|id2: u128|
                    id2 != id ==> (#[trigger] final(cat).files_of(id2)) == old(cat).files_of(
                        id2,
                    ))
                &&& (forall|id2: u128|
                    id2 != id && old(cat)@.repos.contains_key(id2) ==> (#[trigger] final(cat)@.repos[id2]) == old(cat)@.repos[id2])
            },
        },
{
    let (current, maxsz) = {
        let rm = cat.repo_get(id).unwrap();
        (rm.current_size_bytes, rm.max_size_bytes)
    };
    if current > maxsz {
        let outcome = evict_bytes(cat, id, current - maxsz, now_ms);
        Some(RepoEviction { repo_id: id, outcome })
    } else {
        None
    }
}

/// Background sweep: every repository over its ceiling gets one
/// eviction pass asking for exactly its overrun; repositories at or
/// under their ceiling are left alone.
#[verifier::rlimit(100)]
#[verifier::spinoff_prover]
pub fn evict_over_limit_repos(cat: &mut Catalog, now_ms: i64) -> (r: Vec<RepoEviction>)
    requires
        old(cat).wf(),
        old(cat).accounted(),
    ensures
        final(cat).wf(),
        final(cat).accounted(),
        final(cat)@.repos.dom() == old(cat)@.repos.dom(),
        // repositories at or under their ceiling are untouched
        forall|id: u128|
            old(cat)@.repos.contains_key(id) && old(cat)@.repos[id].current_size_bytes <= old(cat)@.repos[id].max_size_bytes ==> (#[trigger] final(cat)@.repos[id]) == old(cat)@.repos[id] && final(cat).files_of(id) == old(cat).files_of(id),
        // every repository over its ceiling got one pass for its overrun
        forall|id: u128|
            old(cat)@.repos.contains_key(id) && old(cat)@.repos[id].current_size_bytes > old(cat)@.repos[id].max_size_bytes ==> exists|k: int|
                0 <= k < r@.len() && (#[trigger] r@[k]).repo_id == id,
        // each reported pass names an over-limit repository and carries
        // a correct eviction for needed = current - max
        forall|k: int|
            0 <= k < r@.len() ==> {
                let entry = #[trigger] r@[k];
                let id = entry.repo_id;
                &&& old(cat)@.repos.contains_key(id)
                &&& old(cat)@.repos[id].current_size_bytes > old(cat)@.repos[id].max_size_bytes
                &&& eviction_outcome(
                    old(cat).files_of(id),
                    crate::text::str_views(entry.outcome.victims@),
                    entry.outcome.freed,
                    (old(cat)@.repos[id].current_size_bytes - old(cat)@.repos[id].max_size_bytes) as u64,
                    now_ms,
                )
                &&& final(cat)@.repos[id].current_size_bytes == old(cat)@.repos[id].current_size_bytes - entry.outcome.freed
                &&& entry.outcome.wal@.map_values(|e: WalEntry| e@)
                    == entry.outcome.victims@.map_values(
                    |s: String| WalRec::FileDeleted { repo_id: id, path: s@ },
                )
            },
        // one pass per repository
        forall|k: int, l: int|
            0 <= k < l < r@.len() ==> (#[trigger] r@[k]).repo_id != (#[trigger] r@[l]).repo_id,
{
    let ghost c0 = *cat;
    let mut ids: Vec<u128> = Vec::new();
    let mut k: usize = 0;
    while k < cat.repo_count()
        invariant
            cat.wf(),
            k <= cat.repos@.len(),
            ids@.len() == k,
            forall|j: int| 0 <= j < k ==> (#[trigger] ids@[j]) == cat.repos@[j]@.id,
        decreases cat.repos@.len() - k,
    {
        ids.push(cat.repo_at(k).id);
        k += 1;
    }
    proof {
        assert forall|j: int| 0 <= j < ids@.len() implies c0@.repos.contains_key(
            #[trigger] ids@[j],
        ) by {
            crate::catalog::lemma_repos_index(c0.repos@, j);
        }
        assert forall|id: u128| #[trigger]
            c0@.repos.contains_key(id) implies exists|j: int|
            0 <= j < ids@.len() && (#[trigger] ids@[j]) == id by {
            crate::catalog::lemma_repos_contains(c0.repos@, id);
            let x = choose|x: int| 0 <= x < c0.repos@.len() && (#[trigger] c0.repos@[x]@.id) == id;
            assert(ids@[x] == id);
        }
        assert forall|x: int, y: int|
            0 <= x < y < ids@.len() implies (#[trigger] ids@[x]) != (#[trigger] ids@[y]) by {
            assert(c0.repos@[x]@.id != c0.repos@[y]@.id);
        }
    }
    let mut out: Vec<RepoEviction> = Vec::new();
    let mut k2: usize = 0;
    while k2 < ids.len()
        invariant
            cat.wf(),
            cat.accounted(),
            c0.wf(),
            c0.accounted(),
            k2 <= ids@.len(),
            cat@.repos.dom() == c0@.repos.dom(),
            forall|j: int| 0 <= j < ids@.len() ==> c0@.repos.contains_key(#[trigger] ids@[j]),
            forall|id: u128| #[trigger]
                c0@.repos.contains_key(id) ==> exists|j: int|
                    0 <= j < ids@.len() && (#[trigger] ids@[j]) == id,
            forall|x: int, y: int|
                0 <= x < y < ids@.len() ==> (#[trigger] ids@[x]) != (#[trigger] ids@[y]),
            // unprocessed repositories are untouched
            forall|x: int|
                k2 <= x < ids@.len() ==> (#[trigger] cat@.repos[ids@[x]]) == c0@.repos[ids@[x]]
                    && cat.files_of(ids@[x]) == c0.files_of(ids@[x]),
            // processed repositories at or under their ceiling are untouched
            forall|x: int|
                0 <= x < k2 && c0@.repos[ids@[x]].current_size_bytes
                    <= c0@.repos[ids@[x]].max_size_bytes ==> (#[trigger] cat@.repos[ids@[x]])
                    == c0@.repos[ids@[x]] && cat.files_of(ids@[x]) == c0.files_of(ids@[x]),
            // processed over-limit repositories are recorded
            forall|x: int|
                #![trigger ids@[x]]
                0 <= x < k2 && c0@.repos[ids@[x]].current_size_bytes
                    > c0@.repos[ids@[x]].max_size_bytes ==> exists|k: int|
                    0 <= k < out@.len() && (#[trigger] out@[k]).repo_id == ids@[x],
            // every recorded pass is a correct eviction at entry state
            forall|k: int|
                0 <= k < out@.len() ==> {
                    let entry = #[trigger] out@[k];
                    let id = entry.repo_id;
                    &&& c0@.repos.contains_key(id)
                    &&& c0@.repos[id].current_size_bytes > c0@.repos[id].max_size_bytes
                    &&& eviction_outcome(
                        c0.files_of(id),
                        crate::text::str_views(entry.outcome.victims@),
                        entry.outcome.freed,
                        (c0@.repos[id].current_size_bytes - c0@.repos[id].max_size_bytes) as u64,
                        now_ms,
                    )
                    &&& cat@.repos[id].current_size_bytes == c0@.repos[id].current_size_bytes
                        - entry.outcome.freed
                    &&& entry.outcome.wal@.map_values(|e: WalEntry| e@)
                        == entry.outcome.victims@.map_values(
                        |s: String| WalRec::FileDeleted { repo_id: id, path: s@ },
                    )
                },
            forall|k: int|
                0 <= k < out@.len() ==> exists|x: int|
                    0 <= x < k2 && (#[trigger] ids@[x]) == (#[trigger] out@[k]).repo_id,
            forall|k: int, l: int|
                0 <= k < l < out@.len() ==> (#[trigger] out@[k]).repo_id != (
                #[trigger] out@[l]).repo_id,
        decreases ids@.len() - k2,
    {
        let id = ids[k2];
        proof {
            assert(c0@.repos.contains_key(id));
            assert(cat@.repos[id] == c0@.repos[id]);
        }
        let ghost catpre = *cat;
        let ghost out0 = out@;
        match sweep_one(cat, id, now_ms) {
            Some(ev) => {
                let ghost evv = ev;
                proof {
                    // this pass ran against the entry state of its repository
                    assert(catpre.files_of(id) == c0.files_of(id));
                    assert(catpre@.repos[id] == c0@.repos[id]);
                }
                out.push(ev);
                proof {
                    assert(out@ =~= out0.push(evv));
                    // earlier passes concerned other repositories
                    assert forall|k: int| 0 <= k < out0.len() implies (#[trigger] out0[k]).repo_id
                        != id by {
                        let x = choose|x: int|
                            0 <= x < k2 && (#[trigger] ids@[x]) == out0[k].repo_id;
                        assert(ids@[x] != ids@[k2 as int]);
                    }
                    assert forall|x: int|
                        k2 + 1 <= x < ids@.len() implies (#[trigger] cat@.repos[ids@[x]])
                        == c0@.repos[ids@[x]] && cat.files_of(ids@[x]) == c0.files_of(
                        ids@[x],
                    ) by {
                        assert(ids@[x] != id);
                        assert(cat@.repos[ids@[x]] == catpre@.repos[ids@[x]]);
                        assert(cat.files_of(ids@[x]) == catpre.files_of(ids@[x]));
                    }
                    assert forall|x: int|
                        0 <= x < k2 + 1 && c0@.repos[ids@[x]].current_size_bytes
                            <= c0@.repos[ids@[x]].max_size_bytes implies (
                    #[trigger] cat@.repos[ids@[x]]) == c0@.repos[ids@[x]] && cat.files_of(
                        ids@[x],
                    ) == c0.files_of(ids@[x]) by {
                        assert(ids@[x] != id);
                        assert(cat@.repos[ids@[x]] == catpre@.repos[ids@[x]]);
                        assert(cat.files_of(ids@[x]) == catpre.files_of(ids@[x]));
                    }
                    assert forall|x: int|
                        #![trigger ids@[x]]
                        0 <= x < k2 + 1 && c0@.repos[ids@[x]].current_size_bytes
                            > c0@.repos[ids@[x]].max_size_bytes implies exists|k: int|
                        0 <= k < out@.len() && (#[trigger] out@[k]).repo_id == ids@[x] by {
                        if x < k2 {
                            let kk = choose|kk: int|
                                0 <= kk < out0.len() && (#[trigger] out0[kk]).repo_id
                                    == ids@[x];
                            assert(out@[kk].repo_id == ids@[x]);
                        } else {
                            assert(out@[out@.len() - 1].repo_id == id);
                        }
                    }
                    assert forall|k: int| 0 <= k < out@.len() implies {
                        let entry = #[trigger] out@[k];
                        let id2 = entry.repo_id;
                        &&& c0@.repos.contains_key(id2)
                        &&& c0@.repos[id2].current_size_bytes > c0@.repos[id2].max_size_bytes
                        &&& eviction_outcome(
                            c0.files_of(id2),
                            crate::text::str_views(entry.outcome.victims@),
                            entry.outcome.freed,
                            (c0@.repos[id2].current_size_bytes
                                - c0@.repos[id2].max_size_bytes) as u64,
                            now_ms,
                        )
                        &&& cat@.repos[id2].current_size_bytes
                            == c0@.repos[id2].current_size_bytes - entry.outcome.freed
                        &&& entry.outcome.wal@.map_values(|e: WalEntry| e@)
                            == entry.outcome.victims@.map_values(
                            |s: String| WalRec::FileDeleted { repo_id: id2, path: s@ },
                        )
                    } by {
                        if k < out0.len() {
                            assert(out@[k] == out0[k]);
                            assert(out0[k].repo_id != id);
                            assert(cat@.repos[out0[k].repo_id]
                                == catpre@.repos[out0[k].repo_id]);
                        } else {
                            assert(out@[k] == evv);
                            assert(evv.repo_id == id);
                        }
                    }
                }
            },
            None => {
                proof {
                    assert(*cat == catpre);
                }
            },
        }
        k2 += 1;
    }
    proof {
        // the per-slot facts give the global postconditions
        assert forall|id: u128|
            c0@.repos.contains_key(id) && c0@.repos[id].current_size_bytes
                <= c0@.repos[id].max_size_bytes implies (#[trigger] cat@.repos[id])
            == c0@.repos[id] && cat.files_of(id) == c0.files_of(id) by {
            let x = choose|x: int| 0 <= x < ids@.len() && (#[trigger] ids@[x]) == id;
        }
        assert forall|id: u128|
            c0@.repos.contains_key(id) && c0@.repos[id].current_size_bytes
                > c0@.repos[id].max_size_bytes implies exists|k: int|
            0 <= k < out@.len() && (#[trigger] out@[k]).repo_id == id by {
            let x = choose|x: int| 0 <= x < ids@.len() && (#[trigger] ids@[x]) == id;
        }
    }
    out
}

/// The record that an eviction pass is about to delete is still exactly
/// the snapshot's record: earlier deletions removed other paths only.
proof fn lemma_snapshot_entry(
    c0: Catalog,
    cpre: Catalog,
    repo_id: u128,
    ss: Seq<FileRec>,
    vs: Seq<Seq<char>>,
    i: int,
    now: i64,
)
    requires
        c0.wf(),
        0 <= i < ss.len(),
        ss.to_multiset() == c0.files_of(repo_id).to_multiset(),
        cpre@ == spec_delete_seq(c0@, repo_id, vs, now),
        cpre@.files.contains_key(repo_id) && cpre@.files[repo_id].contains_key(ss[i].path),
    ensures
        cpre@.files[repo_id][ss[i].path].size_bytes == ss[i].size_bytes,
{
    broadcast use vstd::seq_lib::group_to_multiset_ensures;

    // the record sits in the table it was snapshotted from, under its path
    assert(ss.contains(ss[i]));
    assert(c0.files_of(repo_id).to_multiset().count(ss[i]) > 0);
    assert(c0.files_of(repo_id).contains(ss[i]));
    let k = choose|k: int| 0 <= k < c0.files_of(repo_id).len() && c0.files_of(repo_id)[k] == ss[i];
    crate::catalog::lemma_buckets_contains(c0.buckets@, repo_id);
    let t = crate::catalog::bucket_idx(c0.buckets@, repo_id);
    assert(crate::catalog::has_bucket(c0.buckets@, repo_id));
    assert(c0.buckets@[t].repo_id == repo_id);
    crate::catalog::lemma_buckets_index(c0.buckets@, t);
    assert(c0.files_of(repo_id) == c0.buckets@[t].table.recs());
    assert(c0.buckets@[t].table.entries@[k]@ == ss[i]);
    crate::catalog::lemma_table_index(c0.buckets@[t].table.entries@, k);
    assert(c0@.files[repo_id][ss[i].path] == ss[i]);
    lemma_delete_seq_preserves(c0@, repo_id, vs, ss[i].path, now);
}

/// A run of deletions never changes a record it does not name.
proof fn lemma_delete_seq_preserves(
    c: crate::catalog::CatalogRec,
    id: u128,
    ps: Seq<Seq<char>>,
    p: Seq<char>,
    now: i64,
)
    requires
        c.files.contains_key(id),
        c.files[id].contains_key(p),
        spec_delete_seq(c, id, ps, now).files.contains_key(id),
        spec_delete_seq(c, id, ps, now).files[id].contains_key(p),
    ensures
        spec_delete_seq(c, id, ps, now).files[id][p] == c.files[id][p],
    decreases ps.len(),
{
    if ps.len() > 0 {
        let c1 = spec_delete_file(c, id, ps[0], now);
        if c1.files.contains_key(id) && c1.files[id].contains_key(p) {
            lemma_delete_seq_preserves(c1, id, ps.drop_first(), p, now);
        } else {
            lemma_delete_seq_drops(c1, id, ps.drop_first(), p, now);
        }
    }
}

/// Once a record is gone, a further run of deletions cannot bring it
/// back.
proof fn lemma_delete_seq_drops(
    c: crate::catalog::CatalogRec,
    id: u128,
    ps: Seq<Seq<char>>,
    p: Seq<char>,
    now: i64,
)
    requires
        !(c.files.contains_key(id) && c.files[id].contains_key(p)),
    ensures
        !(spec_delete_seq(c, id, ps, now).files.contains_key(id) && spec_delete_seq(
            c,
            id,
            ps,
            now,
        ).files[id].contains_key(p)),
    decreases ps.len(),
{
    if ps.len() > 0 {
        lemma_delete_seq_drops(spec_delete_file(c, id, ps[0], now), id, ps.drop_first(), p, now);
    }
}

} // verus!
