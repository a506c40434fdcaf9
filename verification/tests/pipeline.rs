use apt_mirror_sync::delta::scan_delta;
use apt_mirror_sync::packages::parse_packages;
use apt_mirror_sync::plan::chunk_evenly;
use apt_mirror_sync::state::{admit_request, AppState};
use apt_mirror_sync::sweep::snapshot_dir_name;
use apt_mirror_sync::universe::dedup_universe;
use apt_mirror_sync::{OperationMode, SyncJob, SyncStatus};

#[test]
fn signed_request_happy_path_decisions() {
    // a valid signed request against an idle server is admitted
    let mut state = AppState::new();
    let d = admit_request(false, false, true, &mut state);
    assert!(d.accept);
    assert_eq!(d.status_code, 200);
    assert!(state.syncing);

    let job = SyncJob {
        rsync_url: b"rsync://mirror.example/repo/".to_vec(),
        http_url: b"https://mirror.example/repo/".to_vec(),
        mode: OperationMode::Debian,
        mirror_sources: false,
        suites: vec![b"stable".to_vec()],
        archs: vec![b"amd64".to_vec()],
        threads: 4,
        dst: b"/srv/mirror".to_vec(),
        timestamp: 1700000000,
    };
    assert!(!job.wants_sources());

    // the remote declares one file, pool/a.deb of size 10
    let index = vec![b"Filename: pool/a.deb".to_vec(), b"Size: 10".to_vec()];
    let entries = parse_packages(&index);
    let universe = dedup_universe(&entries).unwrap();
    assert_eq!(universe.len(), 1);

    // the mirror is empty, so the whole universe is the delta
    let delta = scan_delta(&universe, &vec![None]);
    assert_eq!(delta, vec![b"pool/a.deb".to_vec()]);
    let chunks = chunk_evenly(delta, job.threads);
    assert_eq!(chunks.len(), 1);

    // publication names the snapshot after the request timestamp
    assert_eq!(snapshot_dir_name(job.timestamp), b"dists-1700000000".to_vec());

    // after the transfer the file is present with the declared size and
    // a repeated scan wants nothing
    assert!(scan_delta(&universe, &vec![Some(10u64)]).is_empty());

    state.finish_sync(job.timestamp, SyncStatus::Success, Vec::new());
    assert!(!state.syncing);
    let body = String::from_utf8(state.render_status_body()).unwrap();
    assert!(body.contains("\"last_sync_status\":\"success\""));
    assert!(body.contains("\"last_sync_timestamp\":1700000000"));
}
