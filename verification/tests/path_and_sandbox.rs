use linux_fs::error::AppError;
use linux_fs::path_validate::{ensure_within_root, validate_relative_path};
use linux_fs::sandbox::{
    cap_output, is_allowed, plan_command, timeout_response, validate_args, ExecRequest,
};

#[test]
fn validate_accepts_plain_path() {
    assert_eq!(validate_relative_path("a/b.txt").unwrap(), "a/b.txt");
}

#[test]
fn validate_rejects_traversal() {
    match validate_relative_path("../etc/passwd") {
        Err(AppError::Forbidden(_)) => {},
        other => panic!("expected forbidden, got {:?}", other.is_ok()),
    }
    match validate_relative_path("a/../b") {
        Err(AppError::Forbidden(_)) => {},
        _ => panic!("expected forbidden"),
    }
}

#[test]
fn validate_rejects_empty() {
    match validate_relative_path("") {
        Err(AppError::BadRequest(_)) => {},
        _ => panic!("expected bad request"),
    }
}

#[test]
fn validate_rejects_null_byte() {
    match validate_relative_path("a\0b") {
        Err(AppError::BadRequest(_)) => {},
        _ => panic!("expected bad request"),
    }
}

#[test]
fn validate_strips_root_and_dot() {
    assert_eq!(validate_relative_path("/abs/path").unwrap(), "abs/path");
    assert_eq!(validate_relative_path("a/./b").unwrap(), "a/b");
    assert_eq!(validate_relative_path("a//b/").unwrap(), "a/b");
}

#[test]
fn validate_rejects_dot_only() {
    match validate_relative_path(".") {
        Err(AppError::BadRequest(_)) => {},
        _ => panic!("expected bad request"),
    }
}

#[test]
fn validate_scan_order_traversal_before_null() {
    // the left-to-right segment scan decides which error wins
    match validate_relative_path("../a\0b") {
        Err(AppError::Forbidden(_)) => {},
        _ => panic!("an earlier traversal segment wins with 403"),
    }
    match validate_relative_path("a\0b/..") {
        Err(AppError::BadRequest(_)) => {},
        _ => panic!("an earlier null byte wins with 400"),
    }
}

#[test]
fn validate_normalizes_backslashes() {
    assert_eq!(validate_relative_path("a\\b").unwrap(), "a/b");
    assert_eq!(validate_relative_path("a\\.\\b").unwrap(), "a/b");
}

#[test]
fn traversal_cannot_hide_behind_backslashes() {
    for bad in ["a\\..", "..\\x", "a\\..\\..\\x"] {
        match validate_relative_path(bad) {
            Err(AppError::Forbidden(_)) => {},
            _ => panic!("{bad:?} must be refused as traversal"),
        }
    }
}

#[test]
fn validate_is_idempotent_on_accepted_paths() {
    for raw in ["a/b.txt", "/lead/ing", "x/./y", "plain", "a\\b", "\\lead\\x"] {
        let once = validate_relative_path(raw).unwrap();
        let twice = validate_relative_path(&once).unwrap();
        assert_eq!(once, twice);
    }
}

#[test]
fn within_root_checks_prefix_boundary() {
    assert!(ensure_within_root("/data/repos/r", "/data/repos/r/files/a").is_ok());
    assert!(ensure_within_root("/data/repos/r", "/data/repos/r").is_ok());
    assert!(ensure_within_root("/data/repos/r", "/data/repos/rogue").is_err());
    assert!(ensure_within_root("/data/repos/r", "/else").is_err());
}

#[test]
fn whitelist_allows_read_only_commands() {
    assert!(is_allowed("ls"));
    assert!(is_allowed("grep"));
    assert!(is_allowed("tree"));
    assert!(!is_allowed("rm"));
    assert!(!is_allowed("bash"));
    assert!(!is_allowed(""));
}

#[test]
fn args_with_semicolon_are_rejected() {
    let args = vec![String::from("a;b")];
    match validate_args(&args) {
        Err(AppError::Forbidden(_)) => {},
        _ => panic!("expected forbidden"),
    }
}

#[test]
fn args_with_traversal_or_metachars_are_rejected() {
    for bad in ["..", "a|b", "a`b", "a$b", "a&b", "a\nb", "a\rb", "x/../y"] {
        assert!(validate_args(&vec![bad.to_string()]).is_err(), "{bad:?}");
    }
    assert!(validate_args(&vec!["-la".to_string(), "sub/dir".to_string()]).is_ok());
    assert!(validate_args(&vec![]).is_ok());
}

#[test]
fn plan_command_allows_ls_and_refuses_rm() {
    let ok = plan_command(
        &ExecRequest {
            command: "ls".to_string(),
            args: vec![],
            timeout_seconds: None,
            max_output_bytes: None,
        },
        30,
        10 * 1024 * 1024,
    )
    .unwrap();
    assert_eq!(ok.command, "ls");
    assert_eq!(ok.timeout_seconds, 30);
    assert_eq!(ok.max_output_bytes, 10 * 1024 * 1024);

    let denied = plan_command(
        &ExecRequest {
            command: "rm".to_string(),
            args: vec!["-rf".to_string(), "/".to_string()],
            timeout_seconds: None,
            max_output_bytes: None,
        },
        30,
        1024,
    );
    match denied {
        Err(e) => assert_eq!(e.status_code(), 403),
        Ok(_) => panic!("rm must be refused"),
    }
}

#[test]
fn output_is_capped_and_flagged() {
    let out = cap_output(vec![1, 2, 3, 4, 5], vec![9, 9], 3);
    assert_eq!(out.stdout, vec![1, 2, 3]);
    assert_eq!(out.stderr, vec![9, 9]);
    assert!(out.truncated);

    let ok = cap_output(vec![1], vec![2], 3);
    assert!(!ok.truncated);
    assert_eq!(ok.stdout, vec![1]);
}

#[test]
fn timeout_reports_minus_one_and_message() {
    let r = timeout_response(1234);
    assert_eq!(r.exit_code, -1);
    assert_eq!(r.stdout, "");
    assert_eq!(r.stderr, "Command timed out");
    assert_eq!(r.duration_ms, 1234);
    assert!(!r.truncated);
}
