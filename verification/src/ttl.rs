//! The TTL reaper: sweep out files whose expiry has passed.

use vstd::prelude::*;

use crate::catalog::Catalog;
use crate::file_service::{delete_file, lemma_delete_seq_snoc, spec_delete_file, spec_delete_seq};
use crate::models::{FileMeta, FileRec};
use crate::wal::{WalEntry, WalRec};
use vstd::string::*;

verus! {

/// A record whose expiry instant has passed.
pub open spec fn is_expired(m: FileRec, now: i64) -> bool {
    match m.expires_at {
        Some(e) => e <= now,
        None => false,
    }
}

/// What one reaper pass over a repository did.
pub struct ReapOutcome {
    pub wal: Vec<WalEntry>,
    pub deleted: Vec<String>,
}

/// Delete every expired file of one repository; the deletions go
/// through the same path as an explicit delete, so the log and the
/// accounting stay consistent. The caller unlinks the blobs.
#[verifier::rlimit(100)]
#[verifier::spinoff_prover]
pub fn reap_expired(cat: &mut Catalog, repo_id: u128, now_ms: i64) -> (r: ReapOutcome)
    requires
        old(cat).wf(),
        old(cat).accounted(),
        old(cat)@.repos.contains_key(repo_id),
    ensures
        final(cat).wf(),
        final(cat).accounted(),
        final(cat)@ == spec_delete_seq(
            old(cat)@,
            repo_id,
            r.deleted@.map_values(|s: String| s@),
            now_ms,
        ),
        r.wal@.map_values(|e: WalEntry| e@) == r.deleted@.map_values(
            |s: String| WalRec::FileDeleted { repo_id, path: s@ },
        ),
        forall|x: int, y: int|
            0 <= x < y < r.deleted@.len() ==> (#[trigger] r.deleted@[x]@) != (
            #[trigger] r.deleted@[y]@),
        // every deleted path named an expired file, and every expired
        // file was deleted
        forall|x: int|
            0 <= x < r.deleted@.len() ==> old(cat).file_exists(
                repo_id,
                (#[trigger] r.deleted@[x])@,
            ) && is_expired(old(cat)@.files[repo_id][r.deleted@[x]@], now_ms),
        forall|p: Seq<char>|
            old(cat).file_exists(repo_id, p) && is_expired(old(cat)@.files[repo_id][p], now_ms)
                ==> exists|x: int| 0 <= x < r.deleted@.len() && (#[trigger] r.deleted@[x])@ == p,
{
    let ghost c0 = *cat;
    let mut expired: Vec<String> = Vec::new();
    match cat.table_get(repo_id) {
        None => {
            proof {
                assert(expired@.map_values(|s: String| s@) =~= Seq::<Seq<char>>::empty());
            }
        },
        Some(t) => {
            let ghost tes = t.entries@;
            let mut k: usize = 0;
            proof {
                assert(expired@.map_values(|s: String| s@) =~= Seq::<Seq<char>>::empty());
            }
            while k < t.entries.len()
                invariant
                    cat.wf(),
                    k <= tes.len(),
                    tes == t.entries@,
                    t.wf(),
                    t@ == cat@.files[repo_id],
                    cat@.files.contains_key(repo_id),
                    forall|x: int|
                        0 <= x < expired@.len() ==> cat@.files[repo_id].contains_key(
                            (#[trigger] expired@[x])@,
                        ) && is_expired(cat@.files[repo_id][expired@[x]@], now_ms),
                    forall|x: int|
                        0 <= x < expired@.len() ==> exists|y: int|
                            0 <= y < k && (#[trigger] tes[y])@.path == (
                            #[trigger] expired@[x])@,
                    forall|x: int, y: int|
                        0 <= x < y < expired@.len() ==> (#[trigger] expired@[x]@) != (
                        #[trigger] expired@[y]@),
                    forall|x: int|
                        0 <= x < k && is_expired((#[trigger] tes[x])@, now_ms)
                            ==> expired@.map_values(|s: String| s@).contains(tes[x]@.path),
                decreases tes.len() - k,
            {
                let ghost ex0 = expired@;
                let hit = match t.entries[k].expires_at {
                    Some(e) => e <= now_ms,
                    None => false,
                };
                if hit {
                    expired.push(t.entries[k].path.clone());
                    proof {
                        crate::catalog::lemma_table_index(tes, k as int);
                        assert(expired@.map_values(|s: String| s@) =~= ex0.map_values(
                            |s: String| s@,
                        ).push(tes[k as int]@.path));
                        assert forall|x: int, y: int|
                            0 <= x < y < expired@.len() implies (#[trigger] expired@[x]@) != (
                        #[trigger] expired@[y]@) by {
                            if y == expired@.len() - 1 {
                                let yy = choose|yy: int|
                                    0 <= yy < k && (#[trigger] tes[yy])@.path == ex0[x]@;
                                assert(tes[yy]@.path != tes[k as int]@.path);
                            }
                        }
                        assert forall|x: int|
                            0 <= x < k + 1 && is_expired(
                                (#[trigger] tes[x])@,
                                now_ms,
                            ) implies expired@.map_values(|s: String| s@).contains(
                            tes[x]@.path,
                        ) by {
                            if x < k {
                                let mapped = ex0.map_values(|s: String| s@);
                                assert(mapped.contains(tes[x]@.path));
                                let w = choose|w: int|
                                    0 <= w < mapped.len() && (#[trigger] mapped[w])
                                        == tes[x]@.path;
                                assert(expired@.map_values(|s: String| s@)[w] == tes[x]@.path);
                            } else {
                                assert(expired@.map_values(|s: String| s@).last()
                                    == tes[k as int]@.path);
                            }
                        }
                    }
                } else {
                    proof {
                        crate::catalog::lemma_table_index(tes, k as int);
                    }
                }
                k += 1;
            }
            proof {
                // completeness at the map level
                assert forall|p: Seq<char>|
                    cat.file_exists(repo_id, p) && is_expired(
                        cat@.files[repo_id][p],
                        now_ms,
                    ) implies expired@.map_values(|s: String| s@).contains(p) by {
                    crate::catalog::lemma_table_contains(tes, p);
                    let x = choose|x: int| 0 <= x < tes.len() && (#[trigger] tes[x]@.path) == p;
                    crate::catalog::lemma_table_index(tes, x);
                }
            }
        },
    }
    proof {
        // the snapshot characterizes exactly the expired files of the
        // entry state
        assert forall|x: int|
            0 <= x < expired@.len() implies c0.file_exists(repo_id, (#[trigger] expired@[x])@)
            && is_expired(c0@.files[repo_id][expired@[x]@], now_ms) by {
            assert(cat@.files[repo_id].contains_key(expired@[x]@));
        }
        assert forall|p: Seq<char>|
            (#[trigger] c0.file_exists(repo_id, p)) && is_expired(
                c0@.files[repo_id][p],
                now_ms,
            ) implies expired@.map_values(|s: String| s@).contains(p) by {
            assert(cat.file_exists(repo_id, p));
        }
    }
    // delete each expired path through the ordinary delete path
    let mut wal: Vec<WalEntry> = Vec::new();
    let mut deleted: Vec<String> = Vec::new();
    let mut i: usize = 0;
    proof {
        assert(deleted@.map_values(|s: String| s@) =~= Seq::<Seq<char>>::empty());
        assert(wal@.map_values(|e: WalEntry| e@) =~= Seq::<WalRec>::empty());
        assert(deleted@.map_values(|s: String| s@) =~= expired@.map_values(|s: String| s@).take(
            0,
        ));
    }
    while i < expired.len()
        invariant
            cat.wf(),
            cat.accounted(),
            c0.wf(),
            i <= expired@.len(),
            deleted@ =~= expired@.subrange(0, i as int),
            deleted@.map_values(|s: String| s@) == expired@.map_values(|s: String| s@).take(
                i as int,
            ),
            wal@.map_values(|e: WalEntry| e@) == deleted@.map_values(
                |s: String| WalRec::FileDeleted { repo_id, path: s@ },
            ),
            cat@ == spec_delete_seq(c0@, repo_id, deleted@.map_values(|s: String| s@), now_ms),
            cat@.repos.contains_key(repo_id),
            forall|x: int, y: int|
                0 <= x < y < expired@.len() ==> (#[trigger] expired@[x]@) != (
                #[trigger] expired@[y]@),
            forall|x: int|
                0 <= x < expired@.len() ==> c0.file_exists(repo_id, (#[trigger] expired@[x])@),
            forall|x: int|
                i <= x < expired@.len() ==> cat.file_exists(repo_id, (#[trigger] expired@[x])@),
        decreases expired@.len() - i,
    {
        let ghost vs0 = deleted@.map_values(|s: String| s@);
        let ghost wal0 = wal@;
        match delete_file(cat, repo_id, expired[i].as_str(), now_ms) {
            Ok(e) => {
                let ghost erec = e@;
                wal.push(e);
                deleted.push(expired[i].clone());
                proof {
                    assert(deleted@.map_values(|s: String| s@) =~= vs0.push(
                        expired@[i as int]@,
                    ));
                    assert(wal@.map_values(|e2: WalEntry| e2@) =~= wal0.map_values(
                        |e2: WalEntry| e2@,
                    ).push(erec));
                    assert(deleted@.map_values(|s: String| WalRec::FileDeleted {
                        repo_id,
                        path: s@,
                    }) =~= vs0.map_values(|p: Seq<char>| WalRec::FileDeleted { repo_id, path: p })
                        .push(WalRec::FileDeleted { repo_id, path: expired@[i as int]@ }));
                    assert(wal@.map_values(|e2: WalEntry| e2@) =~= deleted@.map_values(
                        |s: String| WalRec::FileDeleted { repo_id, path: s@ },
                    ));
                    lemma_delete_seq_snoc(c0@, repo_id, vs0, expired@[i as int]@, now_ms);
                    assert(expired@.map_values(|s: String| s@).take(i + 1) =~= vs0.push(
                        expired@[i as int]@,
                    ));
                    assert(deleted@ =~= expired@.subrange(0, i + 1));
                    assert forall|x: int|
                        i + 1 <= x < expired@.len() implies cat.file_exists(
                        repo_id,
                        (#[trigger] expired@[x])@,
                    ) by {
                        assert(expired@[x]@ != expired@[i as int]@);
                    }
                }
            },
            Err(_) => {
                // unreachable: the sweep names an existing file and only
                // earlier entries, all with other paths, were deleted
                proof {
                    assert(false);
                }
            },
        }
        i += 1;
    }
    proof {
        assert(deleted@ =~= expired@);
        assert forall|x: int|
            0 <= x < deleted@.len() implies c0.file_exists(repo_id, (#[trigger] deleted@[x])@)
            && is_expired(c0@.files[repo_id][deleted@[x]@], now_ms) by {
            assert(deleted@[x] == expired@[x]);
            assert(c0.file_exists(repo_id, expired@[x]@));
        }
        assert forall|p: Seq<char>|
            (#[trigger] c0.file_exists(repo_id, p)) && is_expired(
                c0@.files[repo_id][p],
                now_ms,
            ) implies exists|x: int|
            0 <= x < deleted@.len() && (#[trigger] deleted@[x])@ == p by {
            let mapped = expired@.map_values(|s: String| s@);
            assert(mapped.contains(p));
            let w = choose|w: int| 0 <= w < mapped.len() && (#[trigger] mapped[w]) == p;
            assert(deleted@[w]@ == p);
        }
        assert forall|x: int, y: int|
            0 <= x < y < deleted@.len() implies (#[trigger] deleted@[x]@) != (
        #[trigger] deleted@[y]@) by {
            assert(expired@[x]@ != expired@[y]@);
        }
    }
    ReapOutcome { wal, deleted }
}

} // verus!
