use linux_fs::catalog::Catalog;
use linux_fs::digest::compute_etag;
use linux_fs::error::AppError;
use linux_fs::eviction::evict_bytes;
use linux_fs::file_service::{
    copy_file, delete_file, download_file, etag_matches, head_file, list_files, move_file,
    upload_file,
};
use linux_fs::models::{CreateRepoRequest, RepoMeta, UpdateRepoRequest};
use linux_fs::repo_service::{create_repo, delete_repo, get_repo, list_repos, update_repo};
use linux_fs::status::status_snapshot;
use linux_fs::ttl::reap_expired;

const MB: u64 = 1024 * 1024;

fn fresh_repo(cat: &mut Catalog, name: &str, max_size: u64) -> RepoMeta {
    let req = CreateRepoRequest {
        name: name.to_string(),
        max_size_bytes: Some(max_size),
        default_ttl_seconds: None,
    };
    create_repo(cat, &req, 1024 * MB, 1_000).unwrap().0
}

#[test]
fn create_and_list_repos() {
    let mut cat = Catalog::new();
    let repo = fresh_repo(&mut cat, "r", 10 * MB);
    assert_eq!(repo.name, "r");
    assert_eq!(repo.current_size_bytes, 0);
    assert_eq!(repo.file_count, 0);
    let all = list_repos(&cat, 1, 20, &None);
    assert_eq!(all.len(), 1);
    assert_eq!(all[0].id, repo.id);
}

#[test]
fn create_repo_empty_name_is_refused() {
    let mut cat = Catalog::new();
    let req = CreateRepoRequest {
        name: String::new(),
        max_size_bytes: None,
        default_ttl_seconds: None,
    };
    match create_repo(&mut cat, &req, MB, 0) {
        Err(e) => assert_eq!(e.status_code(), 400),
        Ok(_) => panic!("empty name must be refused"),
    }
}

#[test]
fn upload_stores_digest_and_content_type() {
    let mut cat = Catalog::new();
    let repo = fresh_repo(&mut cat, "file-upload", 10 * MB);
    let out = upload_file(&mut cat, repo.id, "test.txt", b"hello world", None, 2_000, 100 * MB);
    let meta = out.result.unwrap();
    assert_eq!(meta.path, "test.txt");
    assert_eq!(meta.size_bytes, 11);
    assert_eq!(
        meta.etag,
        "b94d27b9934d3e08a52e52d7da7dabfac484efe37a5380ee9088f7ace2efcde9"
    );
    assert_eq!(meta.content_type, "text/plain");
    assert_eq!(meta.access_count, 0);
    assert!(out.evicted.is_empty());
    assert_eq!(out.wal.len(), 1);
}

#[test]
fn compute_etag_matches_known_vector() {
    assert_eq!(
        compute_etag(b"hello world"),
        "b94d27b9934d3e08a52e52d7da7dabfac484efe37a5380ee9088f7ace2efcde9"
    );
    assert_eq!(
        compute_etag(b""),
        "e3b0c44298fc1c149afbf4c8996fb92427ae41e4649b934ca495991b7852b855"
    );
}

#[test]
fn upload_then_download_returns_same_record() {
    let mut cat = Catalog::new();
    let repo = fresh_repo(&mut cat, "file-download", 10 * MB);
    let up = upload_file(&mut cat, repo.id, "hello.txt", b"hello world", None, 2_000, 100 * MB)
        .result
        .unwrap();
    let down = download_file(&mut cat, repo.id, "hello.txt", 3_000).unwrap();
    assert_eq!(down.etag, up.etag);
    assert_eq!(down.size_bytes, 11);
    // a second read sees the bumped access statistics
    let again = download_file(&mut cat, repo.id, "hello.txt", 4_000).unwrap();
    assert_eq!(again.access_count, 1);
    assert_eq!(again.last_accessed_at, 3_000);
}

#[test]
fn upload_then_delete_then_get_is_not_found() {
    let mut cat = Catalog::new();
    let repo = fresh_repo(&mut cat, "file-delete", 10 * MB);
    upload_file(&mut cat, repo.id, "del.txt", b"delete me", None, 2_000, 100 * MB)
        .result
        .unwrap();
    delete_file(&mut cat, repo.id, "del.txt", 3_000).unwrap();
    match download_file(&mut cat, repo.id, "del.txt", 4_000) {
        Err(e) => assert_eq!(e.status_code(), 404),
        Ok(_) => panic!("deleted file must be gone"),
    }
    let r = get_repo(&cat, repo.id, 5_000).unwrap();
    assert_eq!(r.current_size_bytes, 0);
    assert_eq!(r.file_count, 0);
}

#[test]
fn upload_at_cap_succeeds_one_more_byte_fails() {
    let mut cat = Catalog::new();
    let repo = fresh_repo(&mut cat, "cap", 10 * MB);
    let ok = upload_file(&mut cat, repo.id, "exact", &[7u8; 5], None, 2_000, 5);
    assert!(ok.result.is_ok());
    let too_big = upload_file(&mut cat, repo.id, "over", &[7u8; 6], None, 2_000, 5);
    match too_big.result {
        Err(e) => assert_eq!(e.status_code(), 413),
        Ok(_) => panic!("payload over the cap must be refused"),
    }
}

#[test]
fn projected_total_at_ceiling_needs_no_eviction() {
    let mut cat = Catalog::new();
    let repo = fresh_repo(&mut cat, "edge", 10);
    let out = upload_file(&mut cat, repo.id, "a", &[1u8; 10], None, 2_000, 100 * MB);
    assert!(out.result.is_ok());
    assert!(out.evicted.is_empty());
    let r = get_repo(&cat, repo.id, 3_000).unwrap();
    assert_eq!(r.current_size_bytes, 10);
}

#[test]
fn eviction_frees_low_score_files_for_new_upload() {
    let mut cat = Catalog::new();
    let repo = fresh_repo(&mut cat, "evict", 10);
    assert!(upload_file(&mut cat, repo.id, "a", b"hello", None, 2_000, 100 * MB).result.is_ok());
    let out = upload_file(&mut cat, repo.id, "b", b"world!", None, 3_000, 100 * MB);
    assert!(out.result.is_ok());
    assert_eq!(out.evicted, vec!["a".to_string()]);
    assert!(download_file(&mut cat, repo.id, "a", 4_000).is_err());
    let b = download_file(&mut cat, repo.id, "b", 4_000).unwrap();
    assert_eq!(b.size_bytes, 6);
    let r = get_repo(&cat, repo.id, 5_000).unwrap();
    assert_eq!(r.current_size_bytes, 6);
    assert_eq!(r.file_count, 1);
}

#[test]
fn eviction_prefers_less_accessed_files() {
    let mut cat = Catalog::new();
    let repo = fresh_repo(&mut cat, "scores", 100);
    upload_file(&mut cat, repo.id, "cold", &[0u8; 40], None, 1_000, 100 * MB).result.unwrap();
    upload_file(&mut cat, repo.id, "hot", &[0u8; 40], None, 1_000, 100 * MB).result.unwrap();
    // read the hot file a few times so its score rises
    for _ in 0..3 {
        download_file(&mut cat, repo.id, "hot", 50_000).unwrap();
    }
    let out = evict_bytes(&mut cat, repo.id, 30, 100_000);
    assert_eq!(out.victims, vec!["cold".to_string()]);
    assert_eq!(out.freed, 40);
    assert!(download_file(&mut cat, repo.id, "hot", 200_000).is_ok());
}

#[test]
fn reupload_may_evict_its_own_old_version() {
    let mut cat = Catalog::new();
    let repo = fresh_repo(&mut cat, "selfswap", 6);
    upload_file(&mut cat, repo.id, "p", &[1u8; 6], None, 1_000, 100 * MB).result.unwrap();
    // the overrun is covered by evicting the path's own old version, so
    // the re-upload succeeds even though the result sits over the ceiling
    let out = upload_file(&mut cat, repo.id, "p", &[2u8; 7], None, 2_000, 100 * MB);
    let meta = out.result.unwrap();
    assert_eq!(out.evicted, vec!["p".to_string()]);
    assert_eq!(meta.size_bytes, 7);
    let r = get_repo(&cat, repo.id, 3_000).unwrap();
    assert_eq!(r.current_size_bytes, 7);
    assert_eq!(r.file_count, 1);
}

#[test]
fn insufficient_eviction_still_fails_with_413() {
    let mut cat = Catalog::new();
    let repo = fresh_repo(&mut cat, "tiny", 4);
    // nothing can make room for a payload bigger than the ceiling
    let out = upload_file(&mut cat, repo.id, "big", &[1u8; 5], None, 2_000, 100 * MB);
    match out.result {
        Err(e) => assert_eq!(e.status_code(), 413),
        Ok(_) => panic!("upload beyond the ceiling must be refused"),
    }
}

#[test]
fn ttl_reaper_removes_expired_files() {
    let mut cat = Catalog::new();
    let repo = fresh_repo(&mut cat, "ttl", 10 * MB);
    upload_file(&mut cat, repo.id, "x", b"soon gone", Some(1), 1_000, 100 * MB).result.unwrap();
    upload_file(&mut cat, repo.id, "keep", b"stays", None, 1_000, 100 * MB).result.unwrap();
    // two seconds later the reaper runs
    let out = reap_expired(&mut cat, repo.id, 3_000);
    assert_eq!(out.deleted, vec!["x".to_string()]);
    assert!(download_file(&mut cat, repo.id, "x", 4_000).is_err());
    assert!(download_file(&mut cat, repo.id, "keep", 4_000).is_ok());
}

#[test]
fn move_rekeys_and_preserves_sizes() {
    let mut cat = Catalog::new();
    let repo = fresh_repo(&mut cat, "file-move", 10 * MB);
    let src = upload_file(&mut cat, repo.id, "src.txt", b"move me", None, 1_000, 100 * MB)
        .result
        .unwrap();
    let (moved, _entry) = move_file(&mut cat, repo.id, "src.txt", "dst.txt", 2_000).unwrap();
    assert_eq!(moved.path, "dst.txt");
    assert_eq!(moved.etag, src.etag);
    assert!(download_file(&mut cat, repo.id, "src.txt", 3_000).is_err());
    let dst = download_file(&mut cat, repo.id, "dst.txt", 3_000).unwrap();
    assert_eq!(dst.size_bytes, 7);
    let r = get_repo(&cat, repo.id, 4_000).unwrap();
    assert_eq!(r.current_size_bytes, 7);
    assert_eq!(r.file_count, 1);
}

#[test]
fn move_to_occupied_destination_conflicts() {
    let mut cat = Catalog::new();
    let repo = fresh_repo(&mut cat, "clash", 10 * MB);
    upload_file(&mut cat, repo.id, "a", b"1", None, 1_000, 100 * MB).result.unwrap();
    upload_file(&mut cat, repo.id, "b", b"2", None, 1_000, 100 * MB).result.unwrap();
    match move_file(&mut cat, repo.id, "a", "b", 2_000) {
        Err(e) => assert_eq!(e.status_code(), 409),
        Ok(_) => panic!("occupied destination must conflict"),
    }
}

#[test]
fn copy_doubles_the_accounted_bytes() {
    let mut cat = Catalog::new();
    let repo = fresh_repo(&mut cat, "file-copy", 10 * MB);
    let orig = upload_file(&mut cat, repo.id, "original.txt", b"copy me", None, 1_000, 100 * MB)
        .result
        .unwrap();
    let (copy, _entry) = copy_file(&mut cat, repo.id, "original.txt", "copy.txt", 2_000).unwrap();
    assert_eq!(copy.etag, orig.etag);
    assert_eq!(copy.size_bytes, orig.size_bytes);
    assert!(download_file(&mut cat, repo.id, "original.txt", 3_000).is_ok());
    assert!(download_file(&mut cat, repo.id, "copy.txt", 3_000).is_ok());
    let r = get_repo(&cat, repo.id, 4_000).unwrap();
    assert_eq!(r.current_size_bytes, 2 * orig.size_bytes);
    assert_eq!(r.file_count, 2);
}

#[test]
fn copy_over_ceiling_is_refused_without_eviction() {
    let mut cat = Catalog::new();
    let repo = fresh_repo(&mut cat, "nocopy", 10);
    upload_file(&mut cat, repo.id, "a", &[1u8; 6], None, 1_000, 100 * MB).result.unwrap();
    match copy_file(&mut cat, repo.id, "a", "b", 2_000) {
        Err(e) => assert_eq!(e.status_code(), 413),
        Ok(_) => panic!("copy beyond the ceiling must be refused"),
    }
    // the source is still there; nothing was evicted
    assert!(download_file(&mut cat, repo.id, "a", 3_000).is_ok());
}

#[test]
fn head_leaves_access_statistics_alone() {
    let mut cat = Catalog::new();
    let repo = fresh_repo(&mut cat, "head", 10 * MB);
    upload_file(&mut cat, repo.id, "h.txt", b"test content", None, 1_000, 100 * MB)
        .result
        .unwrap();
    let m1 = head_file(&cat, repo.id, "h.txt").unwrap();
    let m2 = head_file(&cat, repo.id, "h.txt").unwrap();
    assert_eq!(m1.access_count, 0);
    assert_eq!(m2.access_count, 0);
    assert_eq!(m1.size_bytes, 12);
}

#[test]
fn list_files_sorts_and_paginates() {
    let mut cat = Catalog::new();
    let repo = fresh_repo(&mut cat, "file-list", 10 * MB);
    for name in ["b.txt", "a.txt", "dir/c.txt"] {
        upload_file(&mut cat, repo.id, name, b"xx", None, 1_000, 100 * MB).result.unwrap();
    }
    let all = list_files(&cat, repo.id, &None, true, 1, 100).unwrap();
    let paths: Vec<&str> = all.iter().map(|m| m.path.as_str()).collect();
    assert_eq!(paths, vec!["a.txt", "b.txt", "dir/c.txt"]);

    let top = list_files(&cat, repo.id, &None, false, 1, 100).unwrap();
    let tops: Vec<&str> = top.iter().map(|m| m.path.as_str()).collect();
    assert_eq!(tops, vec!["a.txt", "b.txt"]);

    let prefixed = list_files(&cat, repo.id, &Some("dir/".to_string()), true, 1, 100).unwrap();
    assert_eq!(prefixed.len(), 1);
    assert_eq!(prefixed[0].path, "dir/c.txt");

    let page2 = list_files(&cat, repo.id, &None, true, 2, 2).unwrap();
    assert_eq!(page2.len(), 1);
    assert_eq!(page2[0].path, "dir/c.txt");
}

#[test]
fn list_repos_honors_sort_keys() {
    let mut cat = Catalog::new();
    let req_a = CreateRepoRequest {
        name: "bbb".to_string(),
        max_size_bytes: Some(MB),
        default_ttl_seconds: None,
    };
    let req_b = CreateRepoRequest {
        name: "aaa".to_string(),
        max_size_bytes: Some(MB),
        default_ttl_seconds: None,
    };
    let old = create_repo(&mut cat, &req_a, MB, 1_000).unwrap().0;
    let newer = create_repo(&mut cat, &req_b, MB, 2_000).unwrap().0;
    upload_file(&mut cat, old.id, "f", &[0u8; 9], None, 3_000, 100 * MB).result.unwrap();

    let by_name = list_repos(&cat, 1, 20, &Some("name".to_string()));
    assert_eq!(by_name[0].name, "aaa");

    let by_created = list_repos(&cat, 1, 20, &None);
    assert_eq!(by_created[0].id, newer.id);

    let by_size = list_repos(&cat, 1, 20, &Some("size".to_string()));
    assert_eq!(by_size[0].id, old.id);
}

#[test]
fn update_repo_patches_only_present_fields() {
    let mut cat = Catalog::new();
    let req = CreateRepoRequest {
        name: "update-test".to_string(),
        max_size_bytes: Some(MB),
        default_ttl_seconds: Some(60),
    };
    let repo = create_repo(&mut cat, &req, MB, 1_000).unwrap().0;

    let patch = UpdateRepoRequest {
        name: Some("updated-name".to_string()),
        max_size_bytes: None,
        default_ttl_seconds: None,
        tags: None,
    };
    let (updated, _e) = update_repo(&mut cat, repo.id, &patch, 2_000).unwrap();
    assert_eq!(updated.name, "updated-name");
    assert_eq!(updated.max_size_bytes, MB);
    assert_eq!(updated.default_ttl_seconds, Some(60));

    // present-but-null clears the nested option
    let clear = UpdateRepoRequest {
        name: None,
        max_size_bytes: None,
        default_ttl_seconds: Some(None),
        tags: None,
    };
    let (cleared, _e) = update_repo(&mut cat, repo.id, &clear, 3_000).unwrap();
    assert_eq!(cleared.default_ttl_seconds, None);
}

#[test]
fn delete_repo_drops_all_records() {
    let mut cat = Catalog::new();
    let repo = fresh_repo(&mut cat, "delete-test", 10 * MB);
    upload_file(&mut cat, repo.id, "a", b"1", None, 1_000, 100 * MB).result.unwrap();
    upload_file(&mut cat, repo.id, "b", b"2", None, 1_000, 100 * MB).result.unwrap();
    delete_repo(&mut cat, repo.id).unwrap();
    match get_repo(&cat, repo.id, 2_000) {
        Err(e) => assert_eq!(e.status_code(), 404),
        Ok(_) => panic!("deleted repository must be gone"),
    }
    assert!(head_file(&cat, repo.id, "a").is_err());
    assert!(head_file(&cat, repo.id, "b").is_err());
}

#[test]
fn missing_repo_is_not_found_everywhere() {
    let mut cat = Catalog::new();
    assert_eq!(
        upload_file(&mut cat, 7, "p", b"x", None, 0, MB).result.unwrap_err().status_code(),
        404
    );
    assert_eq!(download_file(&mut cat, 7, "p", 0).unwrap_err().status_code(), 404);
    assert_eq!(delete_file(&mut cat, 7, "p", 0).unwrap_err().status_code(), 404);
    assert_eq!(get_repo(&cat, 7, 0).unwrap_err().status_code(), 404);
    assert_eq!(delete_repo(&mut cat, 7).unwrap_err().status_code(), 404);
}

#[test]
fn status_counts_repos_and_bytes() {
    let mut cat = Catalog::new();
    let a = fresh_repo(&mut cat, "s1", 10 * MB);
    let b = fresh_repo(&mut cat, "s2", 10 * MB);
    upload_file(&mut cat, a.id, "f", &[0u8; 3], None, 1_000, MB).result.unwrap();
    upload_file(&mut cat, b.id, "g", &[0u8; 4], None, 1_000, MB).result.unwrap();
    let s = status_snapshot(&cat, 0);
    assert_eq!(s.repo_count, 2);
    assert_eq!(s.total_size_bytes, 7);
}

#[test]
fn conditional_download_matches_quoted_and_bare() {
    assert!(etag_matches("\"abc\"", "abc"));
    assert!(etag_matches("abc", "abc"));
    assert!(!etag_matches("\"abd\"", "abc"));
    assert!(!etag_matches("", "abc"));
}
