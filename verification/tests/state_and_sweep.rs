use apt_mirror_sync::state::{admit_request, format_error_chain, AppState};
use apt_mirror_sync::sweep::{is_orphan, orphan_files, should_remove_snapshot, snapshot_dir_name};
use apt_mirror_sync::topics::{effective_suites, Topic};
use apt_mirror_sync::universe::dedup_universe;
use apt_mirror_sync::{FileEntry, SyncStatus};

fn entry(path: &[u8], size: u64) -> FileEntry {
    FileEntry { path: path.to_vec(), size }
}

#[test]
fn bad_signature_is_rejected_with_exact_body() {
    let mut state = AppState::new();
    let d = admit_request(false, false, false, &mut state);
    assert!(!d.accept);
    assert_eq!(d.status_code, 400);
    assert_eq!(d.body, b"{\"status\":\"failed\",\"message\":\"Invalid signature\"}".to_vec());
    assert!(!state.syncing);
}

#[test]
fn empty_signature_is_rejected() {
    let mut state = AppState::new();
    let d = admit_request(false, true, false, &mut state);
    assert!(!d.accept);
    assert_eq!(d.status_code, 400);
    assert_eq!(d.body, b"{\"status\":\"failed\",\"message\":\"Invalid signature\"}".to_vec());
}

#[test]
fn concurrency_gate_admits_exactly_one() {
    let mut state = AppState::new();
    let first = admit_request(false, false, true, &mut state);
    assert!(first.accept);
    assert_eq!(first.status_code, 200);
    assert_eq!(
        first.body,
        b"{\"status\":\"success\",\"message\":\"Sync job started\"}".to_vec()
    );
    assert!(state.syncing);
    let second = admit_request(false, false, true, &mut state);
    assert!(!second.accept);
    assert_eq!(second.status_code, 400);
    assert_eq!(
        second.body,
        b"{\"status\":\"failed\",\"message\":\"Sync job is already started\"}".to_vec()
    );
}

#[test]
fn finish_sync_reopens_the_gate() {
    let mut state = AppState::new();
    let first = admit_request(true, true, false, &mut state);
    assert!(first.accept);
    state.finish_sync(1700000000, SyncStatus::Failed, b"boom".to_vec());
    assert!(!state.syncing);
    assert_eq!(state.last_sync_timestamp, 1700000000);
    let again = admit_request(true, true, false, &mut state);
    assert!(again.accept);
}

#[test]
fn status_body_is_exact() {
    let mut state = AppState::new();
    state.finish_sync(42, SyncStatus::Success, b"".to_vec());
    assert_eq!(
        state.render_status_body(),
        b"{\"syncing\":false,\"last_sync_timestamp\":42,\"last_sync_status\":\"success\",\"last_sync_message\":\"\"}"
            .to_vec()
    );
}

#[test]
fn status_message_is_json_escaped() {
    let mut state = AppState::new();
    state.finish_sync(1, SyncStatus::Failed, b"a \"quoted\"\nline".to_vec());
    let body = state.render_status_body();
    let s = String::from_utf8(body).unwrap();
    assert!(s.contains("a \\\"quoted\\\"\\u000aline"));
}

#[test]
fn error_chain_joins_with_colon() {
    let parts = vec![b"sync failed".to_vec(), b"fetch".to_vec(), b"timeout".to_vec()];
    assert_eq!(format_error_chain(&parts), b"sync failed: fetch: timeout".to_vec());
    assert_eq!(format_error_chain(&Vec::new()), Vec::<u8>::new());
}

#[test]
fn stale_snapshots_are_removed_and_current_kept() {
    assert!(should_remove_snapshot(&b"dists-100".to_vec(), 200));
    assert!(should_remove_snapshot(&b"dists--5".to_vec(), 200));
    assert!(!should_remove_snapshot(&b"dists-200".to_vec(), 200));
    assert!(!should_remove_snapshot(&b"dists-abc".to_vec(), 200));
    assert!(!should_remove_snapshot(&b"pool".to_vec(), 200));
    assert!(!should_remove_snapshot(&b"dists-".to_vec(), 200));
    assert_eq!(snapshot_dir_name(1700000000), b"dists-1700000000".to_vec());
}

#[test]
fn orphan_gc_removes_only_unknown_files() {
    let u = dedup_universe(&vec![entry(b"pool/a.deb", 10), entry(b"pool/b.deb", 4)]).unwrap();
    assert!(is_orphan(&u, &b"pool/old.deb".to_vec()));
    assert!(!is_orphan(&u, &b"pool/a.deb".to_vec()));
    let walked = vec![b"pool/a.deb".to_vec(), b"pool/old.deb".to_vec(), b"pool/b.deb".to_vec()];
    let removed = orphan_files(&u, &walked);
    assert_eq!(removed, vec![b"pool/old.deb".to_vec()]);
}

#[test]
fn suite_list_expands_topics() {
    let topics = vec![
        Topic {
            name: b"gcc-13".to_vec(),
            description: Some(b"toolchain bump".to_vec()),
            date: 1,
            update_date: 2,
            arch: vec![b"amd64".to_vec()],
            packages: vec![b"gcc".to_vec()],
            draft: false,
        },
        Topic {
            name: b"kernel-6".to_vec(),
            description: None,
            date: 3,
            update_date: 4,
            arch: vec![],
            packages: vec![],
            draft: true,
        },
    ];
    assert_eq!(
        effective_suites(&topics, true),
        vec![b"gcc-13".to_vec(), b"kernel-6".to_vec(), b"stable".to_vec()]
    );
    assert_eq!(effective_suites(&topics, false), vec![b"stable".to_vec()]);
}
