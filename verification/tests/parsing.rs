use apt_mirror_sync::packages::parse_packages;
use apt_mirror_sync::release::{
    is_relevant, parse_release, relevant_files, strongest_entry, suite_matches,
    validate_suite, AptMetadataHashAlgm,
};
use apt_mirror_sync::sources::{format_sources_paragraph, parse_files_in_sources};
use apt_mirror_sync::SyncError;

fn lines(ls: &[&[u8]]) -> Vec<Vec<u8>> {
    ls.iter().map(|l| l.to_vec()).collect()
}

#[test]
fn sources_paragraph_two_files() {
    let input = lines(&[
        b"",
        b"Directory: pool/main/h/hello",
        b"Files:",
        b" 0123abcd 500 hello_1.0.dsc",
        b" 4567cdef 12345 hello_1.0.tar.gz",
    ]);
    let entries = parse_files_in_sources(&input).unwrap();
    assert_eq!(entries.len(), 2);
    assert_eq!(entries[0].path, b"pool/main/h/hello/hello_1.0.dsc".to_vec());
    assert_eq!(entries[0].size, 500);
    assert_eq!(entries[1].path, b"pool/main/h/hello/hello_1.0.tar.gz".to_vec());
    assert_eq!(entries[1].size, 12345);
}

#[test]
fn sources_round_trip_ignores_field_order() {
    let dir = b"pool/main/h/hello".to_vec();
    let rows = vec![
        (b"hello_1.0.dsc".to_vec(), 500u64),
        (b"hello_1.0.tar.gz".to_vec(), 12345u64),
    ];
    let first = format_sources_paragraph(&dir, &rows, true);
    let second = format_sources_paragraph(&dir, &rows, false);
    let a = parse_files_in_sources(&first).unwrap();
    let b = parse_files_in_sources(&second).unwrap();
    assert_eq!(a, b);
    assert_eq!(a.len(), 2);
    assert_eq!(a[0].path, b"pool/main/h/hello/hello_1.0.dsc".to_vec());
    assert_eq!(a[1].size, 12345);
}

#[test]
fn sources_malformed_row_is_an_error() {
    let input = lines(&[b"", b"Directory: pool/x", b"Files:", b" only-two-fields 12"]);
    assert_eq!(parse_files_in_sources(&input), Err(SyncError::IndexMalformed));
}

#[test]
fn sources_bad_size_is_an_error() {
    let input = lines(&[b"", b"Directory: pool/x", b"Files:", b" md5 12x34 name.tar"]);
    assert_eq!(parse_files_in_sources(&input), Err(SyncError::IndexMalformed));
}

#[test]
fn sources_checksum_block_after_files_is_ignored() {
    let input = lines(&[
        b"",
        b"Directory: pool/x",
        b"Files:",
        b" aa 10 a.tar",
        b"Checksums-Sha256:",
        b" bb 10 a.tar",
        b"",
    ]);
    let entries = parse_files_in_sources(&input).unwrap();
    assert_eq!(entries.len(), 1);
    assert_eq!(entries[0].path, b"pool/x/a.tar".to_vec());
}

#[test]
fn packages_fields_any_order() {
    let input = lines(&[
        b"Package: hello",
        b"Size: 10",
        b"Filename: pool/a.deb",
        b"",
        b"Filename: pool/b.deb",
        b"Other: x",
        b"Size: 20",
    ]);
    let entries = parse_packages(&input);
    assert_eq!(entries.len(), 2);
    assert_eq!(entries[0].path, b"pool/a.deb".to_vec());
    assert_eq!(entries[0].size, 10);
    assert_eq!(entries[1].path, b"pool/b.deb".to_vec());
    assert_eq!(entries[1].size, 20);
}

#[test]
fn packages_paragraph_missing_size_is_dropped() {
    let input = lines(&[b"Filename: pool/a.deb", b"", b"Size: 5", b"Filename: pool/b.deb"]);
    let entries = parse_packages(&input);
    assert_eq!(entries.len(), 1);
    assert_eq!(entries[0].path, b"pool/b.deb".to_vec());
    assert_eq!(entries[0].size, 5);
}

#[test]
fn release_parse_and_strongest_hash() {
    let input = lines(&[
        b"Suite: stable",
        b"Codename: bookworm",
        b"Components: main contrib",
        b"Architectures: amd64 arm64",
        b"MD5Sum:",
        b" 11aa 100 main/binary-amd64/Packages.gz",
        b"SHA256:",
        b" 22bb 100 main/binary-amd64/Packages.gz",
        b" 33cc 7 main/source/Sources.gz",
    ]);
    let info = parse_release(&input);
    assert_eq!(info.suite, b"stable".to_vec());
    assert_eq!(info.codename, b"bookworm".to_vec());
    assert_eq!(info.components, vec![b"main".to_vec(), b"contrib".to_vec()]);
    assert_eq!(info.architectures, vec![b"amd64".to_vec(), b"arm64".to_vec()]);
    assert_eq!(info.files.len(), 3);

    let best = strongest_entry(&info.files, &b"main/binary-amd64/Packages.gz".to_vec()).unwrap();
    assert_eq!(best.algm, AptMetadataHashAlgm::Sha256);
    assert_eq!(best.hash, b"22bb".to_vec());
    assert_eq!(best.size, 100);
    assert!(strongest_entry(&info.files, &b"absent".to_vec()).is_none());

    assert!(suite_matches(&info, &b"stable".to_vec()));
    assert!(suite_matches(&info, &b"bookworm".to_vec()));
    assert!(!suite_matches(&info, &b"sid".to_vec()));
    assert_eq!(validate_suite(&info, &b"bookworm".to_vec()), Ok(()));
    assert_eq!(
        validate_suite(&info, &b"sid".to_vec()),
        Err(SyncError::SuiteMismatch)
    );
}

#[test]
fn relevance_filter_keeps_selected_indices() {
    let comps = vec![b"main".to_vec(), b"contrib".to_vec()];
    let archs = vec![b"amd64".to_vec()];
    let yes = |p: &[u8], src: bool| is_relevant(&comps, &archs, src, &p.to_vec());
    assert!(yes(b"main/binary-amd64/Packages.gz", false));
    assert!(yes(b"contrib/binary-amd64/Release", false));
    assert!(!yes(b"main/binary-arm64/Packages.gz", false));
    assert!(yes(b"main/source/Sources.xz", true));
    assert!(!yes(b"main/source/Sources.xz", false));
    assert!(yes(b"main/i18n/Translation-en.bz2", false));
    assert!(!yes(b"weird/path", true));
}

#[test]
fn relevant_files_filters_a_descriptor() {
    let input = lines(&[
        b"Suite: stable",
        b"Components: main",
        b"Architectures: amd64",
        b"SHA256:",
        b" aa 1 main/binary-amd64/Packages.gz",
        b" bb 2 main/binary-riscv64/Packages.gz",
        b" cc 3 main/source/Sources.gz",
        b" dd 4 main/i18n/Translation-en",
    ]);
    let info = parse_release(&input);
    let kept = relevant_files(&info, false);
    let paths: Vec<Vec<u8>> = kept.iter().map(|e| e.path.clone()).collect();
    assert_eq!(
        paths,
        vec![
            b"main/binary-amd64/Packages.gz".to_vec(),
            b"main/i18n/Translation-en".to_vec(),
        ]
    );
    let with_sources = relevant_files(&info, true);
    assert_eq!(with_sources.len(), 3);
}
