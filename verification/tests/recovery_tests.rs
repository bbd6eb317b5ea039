use linux_fs::catalog::Catalog;
use linux_fs::file_service::upload_file;
use linux_fs::models::CreateRepoRequest;
use linux_fs::recovery::{reconcile, replay_wal_entries, RepoDisk};
use linux_fs::repo_service::{create_repo, get_repo};
use linux_fs::models::ArchiveRequest;
use linux_fs::wal::{frame_payload, scan_frames, WalEntry};

const MB: u64 = 1024 * 1024;

#[test]
fn frames_round_trip() {
    let mut image: Vec<u8> = Vec::new();
    for payload in [&b"abc"[..], &b""[..], &[1u8, 2, 3, 4, 5][..]] {
        image.extend_from_slice(&frame_payload(payload));
    }
    let frames = scan_frames(&image);
    assert_eq!(frames.len(), 3);
    assert_eq!(frames[0], b"abc");
    assert_eq!(frames[1], b"");
    assert_eq!(frames[2], vec![1, 2, 3, 4, 5]);
}

#[test]
fn torn_tail_keeps_complete_frames() {
    let mut image: Vec<u8> = Vec::new();
    image.extend_from_slice(&frame_payload(b"first"));
    image.extend_from_slice(&frame_payload(b"second"));
    // a frame cut short: the length prefix announces more than is there
    let torn = frame_payload(b"lost tail");
    image.extend_from_slice(&torn[..torn.len() - 3]);
    let frames = scan_frames(&image);
    assert_eq!(frames.len(), 2);
    assert_eq!(frames[0], b"first");
    assert_eq!(frames[1], b"second");

    // a tail shorter than a length prefix is also tolerated
    let mut image2 = frame_payload(b"only");
    image2.extend_from_slice(&[9, 9]);
    let frames2 = scan_frames(&image2);
    assert_eq!(frames2.len(), 1);
    assert_eq!(frames2[0], b"only");
}

/// Run a few operations, collect their log records, and replay them into
/// a fresh catalog: every file is present with its size and digest.
#[test]
fn replayed_log_rebuilds_the_catalog() {
    let mut live = Catalog::new();
    let mut wal: Vec<WalEntry> = Vec::new();

    let req = CreateRepoRequest {
        name: "r".to_string(),
        max_size_bytes: Some(10 * MB),
        default_ttl_seconds: None,
    };
    let (repo, e) = create_repo(&mut live, &req, MB, 1_000).unwrap();
    wal.push(e);
    let out = upload_file(&mut live, repo.id, "a.txt", b"hello", None, 2_000, MB);
    let a = out.result.unwrap();
    wal.extend(out.wal);
    let out2 = upload_file(&mut live, repo.id, "b.txt", b"world!", None, 3_000, MB);
    wal.extend(out2.wal);

    let mut rebuilt = Catalog::new();
    replay_wal_entries(&mut rebuilt, &wal);

    let r = get_repo(&rebuilt, repo.id, 0).unwrap();
    assert_eq!(r.name, "r");
    assert_eq!(r.current_size_bytes, 11);
    assert_eq!(r.file_count, 2);
    let a2 = linux_fs::file_service::head_file(&rebuilt, repo.id, "a.txt").unwrap();
    assert_eq!(a2.size_bytes, 5);
    assert_eq!(a2.etag, a.etag);
    // access statistics are not persisted
    assert_eq!(a2.access_count, 0);
}

/// The prefix of the log that was durable before a crash rebuilds the
/// state that was live at that moment.
#[test]
fn replayed_prefix_matches_intermediate_state() {
    let mut live = Catalog::new();
    let mut wal: Vec<WalEntry> = Vec::new();
    let req = CreateRepoRequest {
        name: "p".to_string(),
        max_size_bytes: Some(10 * MB),
        default_ttl_seconds: None,
    };
    let (repo, e) = create_repo(&mut live, &req, MB, 1_000).unwrap();
    wal.push(e);
    let out = upload_file(&mut live, repo.id, "a", b"12345", None, 2_000, MB);
    wal.extend(out.wal);
    let size_after_prefix = get_repo(&live, repo.id, 0).unwrap().current_size_bytes;
    // one more operation happens after the prefix
    let out2 = upload_file(&mut live, repo.id, "b", b"678", None, 3_000, MB);
    assert!(out2.result.is_ok());

    let mut rebuilt = Catalog::new();
    replay_wal_entries(&mut rebuilt, &wal);
    let r = get_repo(&rebuilt, repo.id, 0).unwrap();
    assert_eq!(r.current_size_bytes, size_after_prefix);
    assert_eq!(r.file_count, 1);
}

/// Crash between the log append and the byte write: the replayed entry
/// has no blob, and reconciliation drops the orphan record.
#[test]
fn reconciliation_drops_orphan_metadata() {
    let mut cat = Catalog::new();
    let req = CreateRepoRequest {
        name: "orphans".to_string(),
        max_size_bytes: Some(10 * MB),
        default_ttl_seconds: None,
    };
    let (repo, _e) = create_repo(&mut cat, &req, MB, 1_000).unwrap();
    upload_file(&mut cat, repo.id, "kept", b"ok", None, 2_000, MB).result.unwrap();
    upload_file(&mut cat, repo.id, "orphan", b"gone", None, 2_000, MB).result.unwrap();

    // only `kept` has a blob on disk
    let disk = vec![RepoDisk {
        repo_id: repo.id,
        dir_exists: true,
        present: vec!["kept".to_string()],
    }];
    reconcile(&mut cat, &disk);

    assert!(linux_fs::file_service::head_file(&cat, repo.id, "kept").is_ok());
    assert!(linux_fs::file_service::head_file(&cat, repo.id, "orphan").is_err());
    let r = get_repo(&cat, repo.id, 0).unwrap();
    assert_eq!(r.current_size_bytes, 2);
    assert_eq!(r.file_count, 1);
}

/// A repository whose directory vanished is evicted from the catalog
/// entirely.
#[test]
fn reconciliation_drops_repo_without_directory() {
    let mut cat = Catalog::new();
    let req = CreateRepoRequest {
        name: "gone".to_string(),
        max_size_bytes: Some(MB),
        default_ttl_seconds: None,
    };
    let (repo, _e) = create_repo(&mut cat, &req, MB, 1_000).unwrap();
    let disk = vec![RepoDisk { repo_id: repo.id, dir_exists: false, present: vec![] }];
    reconcile(&mut cat, &disk);
    assert!(get_repo(&cat, repo.id, 0).is_err());
}

/// Restart without a clean snapshot: replaying the whole log and
/// reconciling against intact blobs keeps every file with its size.
#[test]
fn restart_from_log_alone_recovers_everything() {
    let mut live = Catalog::new();
    let mut wal: Vec<WalEntry> = Vec::new();
    let req = CreateRepoRequest {
        name: "restart".to_string(),
        max_size_bytes: Some(10 * MB),
        default_ttl_seconds: None,
    };
    let (repo, e) = create_repo(&mut live, &req, MB, 1_000).unwrap();
    wal.push(e);
    for (name, body) in [("one", &b"1"[..]), ("two", b"22"), ("three", b"333")] {
        let out = upload_file(&mut live, repo.id, name, body, None, 2_000, MB);
        assert!(out.result.is_ok());
        wal.extend(out.wal);
    }

    let mut rebuilt = Catalog::new();
    replay_wal_entries(&mut rebuilt, &wal);
    let disk = vec![RepoDisk {
        repo_id: repo.id,
        dir_exists: true,
        present: vec!["one".to_string(), "two".to_string(), "three".to_string()],
    }];
    reconcile(&mut rebuilt, &disk);

    let r = get_repo(&rebuilt, repo.id, 0).unwrap();
    assert_eq!(r.file_count, 3);
    assert_eq!(r.current_size_bytes, 6);
    for (name, len) in [("one", 1), ("two", 2), ("three", 3)] {
        let m = linux_fs::file_service::head_file(&rebuilt, repo.id, name).unwrap();
        assert_eq!(m.size_bytes, len);
    }
}

#[test]
fn config_paths_follow_the_layout() {
    let cfg = linux_fs::config::AppConfig {
        api_key: "k".to_string(),
        host: "0.0.0.0".to_string(),
        port: 8080,
        data_dir: "/data".to_string(),
        default_max_repo_size: MB,
        max_upload_size: MB,
        snapshot_interval_secs: 300,
        ttl_sweep_interval_secs: 60,
        command_timeout_secs: 30,
        command_max_output_bytes: 10 * 1024 * 1024,
        cache_max_bytes: 256 * 1024 * 1024,
        max_concurrent_commands: 10,
        log_level: "info".to_string(),
        cors_allowed_origins: "*".to_string(),
    };
    assert_eq!(cfg.repos_dir(), "/data/repos");
    assert_eq!(cfg.metadata_dir(), "/data/metadata");
    assert_eq!(cfg.snapshot_path(), "/data/metadata/snapshot.bin");
    assert_eq!(cfg.wal_dir(), "/data/metadata/wal");
    assert!(linux_fs::config::snapshot_version_ok(1));
    assert!(!linux_fs::config::snapshot_version_ok(2));
}

#[test]
fn api_key_layer_compares_exactly() {
    let layer = linux_fs::auth::ApiKeyLayer::new("secret".to_string());
    assert!(layer.is_authorized("secret"));
    assert!(!layer.is_authorized(""));
    assert!(!layer.is_authorized("Secret"));
}

#[test]
fn archive_plan_checks_format_and_path() {
    let ok = linux_fs::archive::plan_archive(&ArchiveRequest {
        path: None,
        format: Some("tar.gz".to_string()),
    });
    assert_eq!(ok.unwrap(), None);
    let sub = linux_fs::archive::plan_archive(&ArchiveRequest {
        path: Some("a/./b".to_string()),
        format: None,
    });
    assert_eq!(sub.unwrap(), Some("a/b".to_string()));
    let bad = linux_fs::archive::plan_archive(&ArchiveRequest {
        path: None,
        format: Some("zip".to_string()),
    });
    assert_eq!(bad.unwrap_err().status_code(), 400);
    let trav = linux_fs::archive::plan_archive(&ArchiveRequest {
        path: Some("../x".to_string()),
        format: None,
    });
    assert_eq!(trav.unwrap_err().status_code(), 403);
}
