//! The laws the catalog obeys, stated over the specification functions
//! that the operations' contracts use and proved once and for all.

use vstd::prelude::*;

use crate::catalog::CatalogRec;
use crate::file_service::{
    clamp_u64, spec_delete_file, spec_upload_commit,
};
use crate::models::{FileRec, RepoRec};
use crate::recovery::{sat_add, sat_sub, spec_apply, spec_replay};
use crate::wal::WalRec;

verus! {

/// A catalog with the fields that recovery does not persist cleared:
/// file access statistics and the repositories' update stamps.
pub open spec fn norm(c: CatalogRec) -> CatalogRec {
    CatalogRec {
        repos: c.repos.map_values(|r: RepoRec| RepoRec { updated_at: 0, ..r }),
        files: c.files.map_values(
            |t: Map<Seq<char>, FileRec>| t.map_values(
                |m: FileRec| FileRec { last_accessed_at: 0, access_count: 0, ..m },
            ),
        ),
    }
}

/// Replaying one more record is applying it after the earlier replay.
pub proof fn lemma_replay_snoc(c: CatalogRec, es: Seq<WalRec>, e: WalRec)
    ensures
        spec_replay(c, es.push(e)) == spec_apply(spec_replay(c, es), e),
    decreases es.len(),
{
    if es.len() == 0 {
        assert(es.push(e)[0] == e);
        assert(es.push(e).drop_first() =~= Seq::<WalRec>::empty());
        assert(spec_replay(spec_apply(c, e), Seq::empty()) == spec_apply(c, e));
        assert(spec_replay(c, es) == c);
    } else {
        assert(es.push(e)[0] == es[0]);
        assert(es.push(e).drop_first() =~= es.drop_first().push(e));
        assert(spec_replay(c, es.push(e)) == spec_replay(
            spec_apply(c, es[0]),
            es.drop_first().push(e),
        ));
        assert(spec_replay(c, es) == spec_replay(spec_apply(c, es[0]), es.drop_first()));
        lemma_replay_snoc(spec_apply(c, es[0]), es.drop_first(), e);
    }
}

/// Two catalogs that agree up to the unpersisted fields still agree
/// after the same record is applied to both: replay only ever reads
/// fields that recovery persists. Together with the lemma above and the
/// per-operation lemmas below, this chains over any record sequence: a
/// replayed prefix agrees with the catalog that was live when the
/// prefix was durable, up to the unpersisted fields.
pub proof fn lemma_apply_respects_norm(x: CatalogRec, y: CatalogRec, e: WalRec)
    requires
        norm(x) == norm(y),
    ensures
        norm(spec_apply(x, e)) == norm(spec_apply(y, e)),
{
    // the normalized views pin domains and all persisted fields
    assert(x.repos.dom() =~= y.repos.dom()) by {
        assert(norm(x).repos.dom() =~= x.repos.dom());
        assert(norm(y).repos.dom() =~= y.repos.dom());
    }
    assert(x.files.dom() =~= y.files.dom()) by {
        assert(norm(x).files.dom() =~= x.files.dom());
        assert(norm(y).files.dom() =~= y.files.dom());
    }
    assert forall|id: u128| #[trigger] x.repos.contains_key(id) implies RepoRec {
        updated_at: 0,
        ..x.repos[id]
    } == RepoRec { updated_at: 0, ..y.repos[id] } by {
        assert(norm(x).repos.contains_key(id));
        assert(norm(x).repos[id] == (RepoRec { updated_at: 0, ..x.repos[id] }));
        assert(norm(y).repos[id] == (RepoRec { updated_at: 0, ..y.repos[id] }));
        assert(norm(x).repos[id] == norm(y).repos[id]);
    }
    assert forall|id: u128| #[trigger] x.files.contains_key(id) implies x.files[id].dom()
        == y.files[id].dom() && (forall|p: Seq<char>|
        #[trigger] x.files[id].contains_key(p) ==> FileRec {
            last_accessed_at: 0,
            access_count: 0,
            ..x.files[id][p]
        } == FileRec { last_accessed_at: 0, access_count: 0, ..y.files[id][p] }) by {
        assert(norm(x).files[id] == norm(y).files[id]);
        assert(norm(x).files[id].dom() =~= x.files[id].dom());
        assert(norm(y).files[id].dom() =~= y.files[id].dom());
        assert forall|p: Seq<char>| #[trigger] x.files[id].contains_key(p) implies FileRec {
            last_accessed_at: 0,
            access_count: 0,
            ..x.files[id][p]
        } == FileRec { last_accessed_at: 0, access_count: 0, ..y.files[id][p] } by {
            assert(norm(x).files.contains_key(id));
            assert(norm(x).files[id].contains_key(p));
            assert(norm(x).files[id][p] == (FileRec {
                last_accessed_at: 0,
                access_count: 0,
                ..x.files[id][p]
            }));
            assert(norm(y).files[id][p] == (FileRec {
                last_accessed_at: 0,
                access_count: 0,
                ..y.files[id][p]
            }));
            assert(norm(x).files[id][p] == norm(y).files[id][p]);
        }
    }
    let nx = norm(spec_apply(x, e));
    let ny = norm(spec_apply(y, e));
    assert(nx.repos =~~= ny.repos);
    assert(nx.files =~~= ny.files);
}

/// Two catalogs that agree up to the unpersisted fields still agree
/// after the same record sequence is replayed over both.
pub proof fn lemma_replay_respects_norm(x: CatalogRec, y: CatalogRec, es: Seq<WalRec>)
    requires
        norm(x) == norm(y),
    ensures
        norm(spec_replay(x, es)) == norm(spec_replay(y, es)),
    decreases es.len(),
{
    if es.len() > 0 {
        lemma_apply_respects_norm(x, y, es[0]);
        lemma_replay_respects_norm(spec_apply(x, es[0]), spec_apply(y, es[0]), es.drop_first());
    }
}

/// Replay consistency of an upload of a fresh path: applying the
/// `FileCreated` record that a live upload logged rebuilds the live
/// catalog, up to the unpersisted fields.
pub proof fn lemma_replay_upload(c: CatalogRec, meta: FileRec, now: i64)
    requires
        c.repos.contains_key(meta.repo_id),
        !(c.files.contains_key(meta.repo_id) && c.files[meta.repo_id].contains_key(meta.path)),
        meta.created_at == now,
        meta.updated_at == now,
        meta.last_accessed_at == now,
        meta.access_count == 0,
        c.repos[meta.repo_id].current_size_bytes + meta.size_bytes <= u64::MAX,
    ensures
        norm(spec_upload_commit(c, meta, now)) == norm(
            spec_apply(
                c,
                WalRec::FileCreated {
                    repo_id: meta.repo_id,
                    path: meta.path,
                    size_bytes: meta.size_bytes,
                    etag: meta.etag,
                    content_type: meta.content_type,
                    created_at: now,
                    expires_at: meta.expires_at,
                },
            ),
        ),
{
    let id = meta.repo_id;
    let live = spec_upload_commit(c, meta, now);
    let replayed = spec_apply(
        c,
        WalRec::FileCreated {
            repo_id: id,
            path: meta.path,
            size_bytes: meta.size_bytes,
            etag: meta.etag,
            content_type: meta.content_type,
            created_at: now,
            expires_at: meta.expires_at,
        },
    );
    assert(live.files =~~= replayed.files);
    assert(norm(live).files =~~= norm(replayed).files);
    // the stored records differ only in the repository's update stamp
    assert(norm(live).repos =~~= norm(replayed).repos) by {
        let r0 = c.repos[id];
        assert(clamp_u64(r0.current_size_bytes - 0 + meta.size_bytes) == sat_add(
            r0.current_size_bytes,
            meta.size_bytes,
        ));
    }
}

/// Replay consistency of a deletion: applying the `FileDeleted` record
/// rebuilds the live catalog, up to the unpersisted fields.
pub proof fn lemma_replay_delete(c: CatalogRec, id: u128, p: Seq<char>, now: i64)
    requires
        c.repos.contains_key(id),
    ensures
        norm(spec_delete_file(c, id, p, now)) == norm(
            spec_apply(c, WalRec::FileDeleted { repo_id: id, path: p }),
        ),
{
    let live = spec_delete_file(c, id, p, now);
    let replayed = spec_apply(c, WalRec::FileDeleted { repo_id: id, path: p });
    assert(live.files =~~= replayed.files);
    assert(norm(live).files =~~= norm(replayed).files);
    assert(norm(live).repos =~~= norm(replayed).repos);
}

/// Replay consistency of a repository creation with a fresh identifier.
pub proof fn lemma_replay_create_repo(c: CatalogRec, rec: RepoRec, now: i64)
    requires
        !c.files.contains_key(rec.id),
        rec.current_size_bytes == 0,
        rec.file_count == 0,
        rec.created_at == now,
        rec.updated_at == now,
        rec.last_accessed_at == now,
        rec.tags == Map::<Seq<char>, Seq<char>>::empty(),
    ensures
        norm(
            CatalogRec {
                repos: c.repos.insert(rec.id, rec),
                files: c.files.insert(rec.id, Map::empty()),
            },
        ) == norm(
            spec_apply(
                c,
                WalRec::RepoCreated {
                    id: rec.id,
                    name: rec.name,
                    max_size_bytes: rec.max_size_bytes,
                    default_ttl_seconds: rec.default_ttl_seconds,
                    created_at: now,
                },
            ),
        ),
{
    let live = CatalogRec {
        repos: c.repos.insert(rec.id, rec),
        files: c.files.insert(rec.id, Map::empty()),
    };
    let replayed = spec_apply(
        c,
        WalRec::RepoCreated {
            id: rec.id,
            name: rec.name,
            max_size_bytes: rec.max_size_bytes,
            default_ttl_seconds: rec.default_ttl_seconds,
            created_at: now,
        },
    );
    assert(live.repos =~~= replayed.repos);
    assert(live.files =~~= replayed.files);
    assert(norm(live).repos =~~= norm(replayed).repos);
    assert(norm(live).files =~~= norm(replayed).files);
}

/// Replay consistency of a repository deletion: exact, nothing to
/// erase.
pub proof fn lemma_replay_delete_repo(c: CatalogRec, id: u128)
    ensures
        (CatalogRec { repos: c.repos.remove(id), files: c.files.remove(id) }) == spec_apply(
            c,
            WalRec::RepoDeleted { id },
        ),
{
}

/// The record a download finds immediately after an upload is the
/// uploaded record itself: in particular it carries the digest of the
/// uploaded bytes as its ETag.
pub proof fn lemma_upload_then_download(c: CatalogRec, meta: FileRec, now: i64)
    ensures
        spec_upload_commit(c, meta, now).files.contains_key(meta.repo_id),
        spec_upload_commit(c, meta, now).files[meta.repo_id].contains_key(meta.path),
        spec_upload_commit(c, meta, now).files[meta.repo_id][meta.path] == meta,
{
}

/// Upload then delete then get: after the deletion the record is gone,
/// so a following lookup reports not-found.
pub proof fn lemma_upload_delete_get(c: CatalogRec, meta: FileRec, now: i64, later: i64)
    requires
        c.repos.contains_key(meta.repo_id),
    ensures
        !spec_delete_file(
            spec_upload_commit(c, meta, now),
            meta.repo_id,
            meta.path,
            later,
        ).files[meta.repo_id].contains_key(meta.path),
{
    let c1 = spec_upload_commit(c, meta, now);
    assert(c1.files[meta.repo_id].contains_key(meta.path));
    assert(c1.repos.contains_key(meta.repo_id));
}

/// A move preserves every repository's size and count, and a self-move
/// undone restores the catalog, up to the moved record's update stamp.
pub proof fn lemma_move_size_preserving(c: CatalogRec, id: u128, src: Seq<char>, dst: Seq<char>, now: i64)
    requires
        c.files.contains_key(id),
        c.files[id].contains_key(src),
    ensures
        spec_apply(
            c,
            WalRec::FileMoved { repo_id: id, source: src, destination: dst, updated_at: now },
        ).repos == c.repos,
{
}

/// Moving a file away and back restores the catalog, except that the
/// record carries the later update stamp.
pub proof fn lemma_move_then_undo(c: CatalogRec, id: u128, src: Seq<char>, dst: Seq<char>, t1: i64, t2: i64)
    requires
        c.files.contains_key(id),
        c.files[id].contains_key(src),
        c.files[id][src].path == src,
        src != dst,
        !c.files[id].contains_key(dst),
    ensures
        ({
            let there = spec_apply(
                c,
                WalRec::FileMoved { repo_id: id, source: src, destination: dst, updated_at: t1 },
            );
            let back = spec_apply(
                there,
                WalRec::FileMoved { repo_id: id, source: dst, destination: src, updated_at: t2 },
            );
            &&& back.repos == c.repos
            &&& back.files == c.files.insert(
                id,
                c.files[id].insert(
                    src,
                    FileRec { updated_at: t2, ..c.files[id][src] },
                ),
            )
        }),
{
    let there = spec_apply(
        c,
        WalRec::FileMoved { repo_id: id, source: src, destination: dst, updated_at: t1 },
    );
    let back = spec_apply(
        there,
        WalRec::FileMoved { repo_id: id, source: dst, destination: src, updated_at: t2 },
    );
    assert(there.files[id].contains_key(dst));
    assert(back.files[id] =~= c.files[id].insert(
        src,
        FileRec { updated_at: t2, ..c.files[id][src] },
    ));
    assert(back.files =~~= c.files.insert(
        id,
        c.files[id].insert(src, FileRec { updated_at: t2, ..c.files[id][src] }),
    ));
}

/// A copy adds exactly the source's size to the repository's share of
/// that content: the bytes are now accounted twice.
pub proof fn lemma_copy_doubles_share(c: CatalogRec, meta: FileRec, now: i64)
    requires
        c.repos.contains_key(meta.repo_id),
        !(c.files.contains_key(meta.repo_id) && c.files[meta.repo_id].contains_key(meta.path)),
        c.repos[meta.repo_id].current_size_bytes + meta.size_bytes <= u64::MAX,
    ensures
        spec_upload_commit(c, meta, now).repos[meta.repo_id].current_size_bytes == c.repos[meta.repo_id].current_size_bytes
            + meta.size_bytes,
{
}

/// A repository at its ceiling that just freed bytes by eviction admits
/// a following upload of at most the freed amount without another
/// eviction: the projected total stays under the ceiling.
pub proof fn lemma_post_eviction_capacity(ceiling: u64, freed: u64, size: u64)
    requires
        freed <= ceiling,
        size <= freed,
    ensures
        (ceiling - freed) + size <= ceiling,
{
}

/// One successful catalog mutation of a run, as data: what the live
/// service did, in the order the log serialized it.
#[allow(inconsistent_fields)]
pub ghost enum Action {
    CreateRepo { rec: RepoRec, now: i64 },
    UploadNew { meta: FileRec, now: i64 },
    DeleteFile { id: u128, p: Seq<char>, now: i64 },
    MoveFile { id: u128, src: Seq<char>, dst: Seq<char>, now: i64 },
    UpdateRepo {
        id: u128,
        name: Option<Seq<char>>,
        max_size_bytes: Option<u64>,
        default_ttl_seconds: Option<Option<u64>>,
        tags: Option<Map<Seq<char>, Seq<char>>>,
        now: i64,
    },
    DeleteRepo { id: u128 },
}

/// The record the live operation appends for this action.
pub open spec fn action_entry(a: Action) -> WalRec {
    match a {
        Action::CreateRepo { rec, now } => WalRec::RepoCreated {
            id: rec.id,
            name: rec.name,
            max_size_bytes: rec.max_size_bytes,
            default_ttl_seconds: rec.default_ttl_seconds,
            created_at: now,
        },
        Action::UploadNew { meta, now } => WalRec::FileCreated {
            repo_id: meta.repo_id,
            path: meta.path,
            size_bytes: meta.size_bytes,
            etag: meta.etag,
            content_type: meta.content_type,
            created_at: now,
            expires_at: meta.expires_at,
        },
        Action::DeleteFile { id, p, now } => WalRec::FileDeleted { repo_id: id, path: p },
        Action::MoveFile { id, src, dst, now } => WalRec::FileMoved {
            repo_id: id,
            source: src,
            destination: dst,
            updated_at: now,
        },
        Action::UpdateRepo { id, name, max_size_bytes, default_ttl_seconds, tags, now } => WalRec::RepoUpdated {
            id,
            name,
            max_size_bytes,
            default_ttl_seconds,
            tags,
            updated_at: now,
        },
        Action::DeleteRepo { id } => WalRec::RepoDeleted { id },
    }
}

/// The live catalog after this action, exactly as the operations'
/// contracts state it.
pub open spec fn action_live(c: CatalogRec, a: Action) -> CatalogRec {
    match a {
        Action::CreateRepo { rec, now } => CatalogRec {
            repos: c.repos.insert(rec.id, rec),
            files: c.files.insert(rec.id, Map::empty()),
        },
        Action::UploadNew { meta, now } => spec_upload_commit(c, meta, now),
        Action::DeleteFile { id, p, now } => spec_delete_file(c, id, p, now),
        // a live move or patch lands exactly where its record replays to
        Action::MoveFile { .. } => spec_apply(c, action_entry(a)),
        Action::UpdateRepo { .. } => spec_apply(c, action_entry(a)),
        Action::DeleteRepo { id } => CatalogRec {
            repos: c.repos.remove(id),
            files: c.files.remove(id),
        },
    }
}

/// The conditions under which the live operation succeeds this way: a
/// fresh identifier or path where one is created, the fields the
/// operation stamps, and room under the counters.
pub open spec fn action_ok(c: CatalogRec, a: Action) -> bool {
    match a {
        Action::CreateRepo { rec, now } => {
            &&& !c.files.contains_key(rec.id)
            &&& rec.current_size_bytes == 0
            &&& rec.file_count == 0
            &&& rec.created_at == now
            &&& rec.updated_at == now
            &&& rec.last_accessed_at == now
            &&& rec.tags == Map::<Seq<char>, Seq<char>>::empty()
        },
        Action::UploadNew { meta, now } => {
            &&& c.repos.contains_key(meta.repo_id)
            &&& !(c.files.contains_key(meta.repo_id) && c.files[meta.repo_id].contains_key(
                meta.path,
            ))
            &&& meta.created_at == now
            &&& meta.updated_at == now
            &&& meta.last_accessed_at == now
            &&& meta.access_count == 0
            &&& c.repos[meta.repo_id].current_size_bytes + meta.size_bytes <= u64::MAX
        },
        Action::DeleteFile { id, .. } => c.repos.contains_key(id),
        Action::MoveFile { .. } => true,
        Action::UpdateRepo { .. } => true,
        Action::DeleteRepo { .. } => true,
    }
}

/// The live catalog after a whole run.
pub open spec fn run_live(c: CatalogRec, actions: Seq<Action>) -> CatalogRec
    decreases actions.len(),
{
    if actions.len() == 0 {
        c
    } else {
        run_live(action_live(c, actions[0]), actions.drop_first())
    }
}

/// Every action of the run met its conditions in the live state it ran
/// against.
pub open spec fn run_ok(c: CatalogRec, actions: Seq<Action>) -> bool
    decreases actions.len(),
{
    if actions.len() == 0 {
        true
    } else {
        action_ok(c, actions[0]) && run_ok(action_live(c, actions[0]), actions.drop_first())
    }
}

/// One action's replay lands on its live state, up to the unpersisted
/// fields.
proof fn lemma_action_replay(c: CatalogRec, a: Action)
    requires
        action_ok(c, a),
    ensures
        norm(action_live(c, a)) == norm(spec_apply(c, action_entry(a))),
{
    match a {
        Action::CreateRepo { rec, now } => {
            lemma_replay_create_repo(c, rec, now);
        },
        Action::UploadNew { meta, now } => {
            lemma_replay_upload(c, meta, now);
        },
        Action::DeleteFile { id, p, now } => {
            lemma_replay_delete(c, id, p, now);
        },
        Action::MoveFile { .. } => {},
        Action::UpdateRepo { .. } => {},
        Action::DeleteRepo { id } => {
            lemma_replay_delete_repo(c, id);
        },
    }
}

/// Replay equals the live run: for any run of successful operations and
/// for the whole record sequence it logged, replaying those records over
/// the run's starting catalog rebuilds the final live catalog, up to the
/// unpersisted fields (file access statistics and repository update
/// stamps). Applied to a prefix of a run, it rebuilds the live catalog
/// as of the moment that prefix was durable.
pub proof fn lemma_run_replay(c: CatalogRec, actions: Seq<Action>)
    requires
        run_ok(c, actions),
    ensures
        norm(spec_replay(c, actions.map_values(|a: Action| action_entry(a)))) == norm(
            run_live(c, actions),
        ),
    decreases actions.len(),
{
    let es = actions.map_values(|a: Action| action_entry(a));
    if actions.len() == 0 {
        assert(es.len() == 0);
    } else {
        let a0 = actions[0];
        let live1 = action_live(c, a0);
        assert(es[0] == action_entry(a0));
        assert(es.drop_first() =~= actions.drop_first().map_values(
            |a: Action| action_entry(a),
        ));
        assert(spec_replay(c, es) == spec_replay(spec_apply(c, es[0]), es.drop_first()));
        lemma_action_replay(c, a0);
        lemma_replay_respects_norm(spec_apply(c, action_entry(a0)), live1, es.drop_first());
        lemma_run_replay(live1, actions.drop_first());
        assert(run_live(c, actions) == run_live(live1, actions.drop_first()));
    }
}

/// Restart recovery, end to end at the catalog level: replay of the
/// whole log a run produced holds every file the run left live, with
/// its persisted fields (path, size, digest, content type, creation
/// time, expiry) intact; only access statistics and repository update
/// stamps are reset. Reconciliation against intact blobs then keeps
/// each of these records unchanged and recomputes the counters from
/// them (`reconcile`'s own contract), which is the whole restart story.
pub proof fn lemma_restart_recovers_files(
    c: CatalogRec,
    actions: Seq<Action>,
    id: u128,
    p: Seq<char>,
)
    requires
        run_ok(c, actions),
        run_live(c, actions).files.contains_key(id),
        run_live(c, actions).files[id].contains_key(p),
    ensures
        ({
            let live = run_live(c, actions).files[id][p];
            let rep = spec_replay(c, actions.map_values(|a: Action| action_entry(a)));
            &&& rep.files.contains_key(id)
            &&& rep.files[id].contains_key(p)
            &&& rep.files[id][p] == (FileRec {
                last_accessed_at: rep.files[id][p].last_accessed_at,
                access_count: rep.files[id][p].access_count,
                ..live
            })
        }),
{
    lemma_run_replay(c, actions);
    let live_cat = run_live(c, actions);
    let rep = spec_replay(c, actions.map_values(|a: Action| action_entry(a)));
    assert(norm(rep).files == norm(live_cat).files);
    assert(norm(rep).files.dom() =~= rep.files.dom());
    assert(norm(live_cat).files.dom() =~= live_cat.files.dom());
    assert(rep.files.contains_key(id));
    assert(norm(rep).files[id] == norm(live_cat).files[id]);
    assert(norm(rep).files[id].dom() =~= rep.files[id].dom());
    assert(norm(live_cat).files[id].dom() =~= live_cat.files[id].dom());
    assert(rep.files[id].contains_key(p));
    assert(norm(rep).files[id][p] == (FileRec {
        last_accessed_at: 0,
        access_count: 0,
        ..rep.files[id][p]
    }));
    assert(norm(live_cat).files[id][p] == (FileRec {
        last_accessed_at: 0,
        access_count: 0,
        ..live_cat.files[id][p]
    }));
}

} // verus!
