use apt_mirror_sync::delta::scan_delta;
use apt_mirror_sync::plan::{
    chunk_evenly, list_file_name, partition_round_robin, render_file_list, rsync_args,
};
use apt_mirror_sync::universe::dedup_universe;
use apt_mirror_sync::{FileEntry, SyncError};

fn entry(path: &[u8], size: u64) -> FileEntry {
    FileEntry { path: path.to_vec(), size }
}

#[test]
fn delta_size_mismatch_is_transferred() {
    let list = vec![entry(b"pool/a.deb", 10)];
    let stats = vec![Some(9u64)];
    let delta = scan_delta(&list, &stats);
    assert_eq!(delta, vec![b"pool/a.deb".to_vec()]);
}

#[test]
fn delta_missing_and_matching() {
    let list = vec![entry(b"pool/a.deb", 10), entry(b"pool/b.deb", 4), entry(b"pool/c.deb", 1)];
    let stats = vec![Some(10u64), None, Some(2u64)];
    let delta = scan_delta(&list, &stats);
    assert_eq!(delta, vec![b"pool/b.deb".to_vec(), b"pool/c.deb".to_vec()]);
}

#[test]
fn delta_empty_when_everything_matches() {
    let list = vec![entry(b"pool/a.deb", 10), entry(b"pool/b.deb", 4)];
    let stats = vec![Some(10u64), Some(4u64)];
    assert!(scan_delta(&list, &stats).is_empty());
}

#[test]
fn universe_deduplicates_and_sorts() {
    let entries = vec![
        entry(b"pool/b.deb", 2),
        entry(b"pool/a.deb", 1),
        entry(b"pool/b.deb", 2),
        entry(b"dists/x", 7),
    ];
    let u = dedup_universe(&entries).unwrap();
    assert_eq!(
        u,
        vec![entry(b"dists/x", 7), entry(b"pool/a.deb", 1), entry(b"pool/b.deb", 2)]
    );
}

#[test]
fn universe_conflicting_sizes_fail() {
    let entries = vec![entry(b"pool/a.deb", 1), entry(b"pool/a.deb", 2)];
    assert_eq!(dedup_universe(&entries), Err(SyncError::InconsistentIndex));
}

#[test]
fn empty_delta_spawns_no_worker() {
    let chunks = chunk_evenly(Vec::<Vec<u8>>::new(), 4);
    assert!(chunks.is_empty());
}

#[test]
fn single_file_uses_a_single_list() {
    let chunks = chunk_evenly(vec![b"pool/a.deb".to_vec()], 4);
    assert_eq!(chunks.len(), 1);
    assert_eq!(chunks[0], vec![b"pool/a.deb".to_vec()]);
}

#[test]
fn serial_operation_keeps_the_outcome() {
    let items: Vec<Vec<u8>> = (0..5u8).map(|i| vec![i]).collect();
    let serial = chunk_evenly(items.clone(), 1);
    assert_eq!(serial.len(), 1);
    assert_eq!(serial[0], items);
    let parallel = chunk_evenly(items.clone(), 2);
    let mut joined = Vec::new();
    for c in &parallel {
        joined.extend(c.iter().cloned());
    }
    assert_eq!(joined, items);
    assert_eq!(parallel.len(), 2);
    assert_eq!(parallel[0].len(), 3);
    assert_eq!(parallel[1].len(), 2);
}

#[test]
fn round_robin_deals_in_turn() {
    let items: Vec<Vec<u8>> = (0..5u8).map(|i| vec![i]).collect();
    let queues = partition_round_robin(items, 2);
    assert_eq!(queues.len(), 2);
    assert_eq!(queues[0], vec![vec![0u8], vec![2u8], vec![4u8]]);
    assert_eq!(queues[1], vec![vec![1u8], vec![3u8]]);
}

#[test]
fn round_robin_zero_queues_still_runs_one() {
    let queues = partition_round_robin(vec![b"a".to_vec()], 0);
    assert_eq!(queues.len(), 1);
    assert_eq!(queues[0], vec![b"a".to_vec()]);
}

#[test]
fn file_list_is_newline_terminated() {
    let paths = vec![b"pool/a.deb".to_vec(), b"pool/b.deb".to_vec()];
    assert_eq!(render_file_list(&paths), b"pool/a.deb\npool/b.deb\n".to_vec());
}

#[test]
fn list_file_names_carry_timestamp_and_index() {
    assert_eq!(list_file_name(1700000000, 1), b"files-1700000000-1.txt".to_vec());
    assert_eq!(list_file_name(-3, 12), b"files--3-12.txt".to_vec());
}

#[test]
fn rsync_argument_vector() {
    let args = rsync_args(
        &b"rsync://mirror.example/repo/".to_vec(),
        &b"/srv/mirror".to_vec(),
        &b"/srv/mirror/.tmp/files-1-1.txt".to_vec(),
    );
    assert_eq!(
        args,
        vec![
            b"-R".to_vec(),
            b"-r".to_vec(),
            b"-v".to_vec(),
            b"--no-motd".to_vec(),
            b"--files-from=/srv/mirror/.tmp/files-1-1.txt".to_vec(),
            b"rsync://mirror.example/repo/".to_vec(),
            b"/srv/mirror".to_vec(),
        ]
    );
}
