use std::io::Write;

use apt_mirror_sync::pgp::split_inrelease;
use apt_mirror_sync::reader::read_index_lines;
use apt_mirror_sync::release::{
    checksum_file, digest_matches, hex_lower, AptMetadataHashAlgm, ReleaseFileEntry,
};
use apt_mirror_sync::SyncError;

fn gz(data: &[u8]) -> Vec<u8> {
    let mut enc = flate2::write::GzEncoder::new(Vec::new(), flate2::Compression::default());
    enc.write_all(data).unwrap();
    enc.finish().unwrap()
}

fn xz(data: &[u8]) -> Vec<u8> {
    let mut enc = xz2::write::XzEncoder::new(Vec::new(), 6);
    enc.write_all(data).unwrap();
    enc.finish().unwrap()
}

#[test]
fn plain_file_splits_into_lines() {
    let lines = read_index_lines(&b"Packages".to_vec(), &b"a\nb\r\n\nc".to_vec()).unwrap();
    assert_eq!(lines, vec![b"a".to_vec(), b"b".to_vec(), b"".to_vec(), b"c".to_vec()]);
}

#[test]
fn gzip_index_is_decoded() {
    let raw = gz(b"Filename: pool/a.deb\nSize: 3\n");
    assert_ne!(raw, b"Filename: pool/a.deb\nSize: 3\n".to_vec());
    let lines = read_index_lines(&b"main/binary-amd64/Packages.gz".to_vec(), &raw).unwrap();
    assert_eq!(lines, vec![b"Filename: pool/a.deb".to_vec(), b"Size: 3".to_vec()]);
}

#[test]
fn gzip_extension_is_case_insensitive() {
    let raw = gz(b"x\n");
    let lines = read_index_lines(&b"Packages.GZ".to_vec(), &raw).unwrap();
    assert_eq!(lines, vec![b"x".to_vec()]);
}

#[test]
fn xz_index_is_decoded() {
    let raw = xz(b"Package: hello\n");
    assert_ne!(raw, b"Package: hello\n".to_vec());
    let lines = read_index_lines(&b"Sources.xz".to_vec(), &raw).unwrap();
    assert_eq!(lines, vec![b"Package: hello".to_vec()]);
}

#[test]
fn unknown_extension_is_refused() {
    assert_eq!(
        read_index_lines(&b"Packages.bz2".to_vec(), &b"whatever".to_vec()),
        Err(SyncError::UnsupportedExtension)
    );
}

#[test]
fn corrupt_gzip_fails_to_decode() {
    assert_eq!(
        read_index_lines(&b"Packages.gz".to_vec(), &b"not gzip at all".to_vec()),
        Err(SyncError::DecodeFailed)
    );
}

#[test]
fn inrelease_splits_into_body_and_signature() {
    let doc = b"-----BEGIN PGP SIGNED MESSAGE-----\n\
Hash: SHA256\n\
\n\
Suite: stable\n\
Codename: bookworm\n\
-----BEGIN PGP SIGNATURE-----\n\
\n\
iQEzBAEBCAAdFiEE\n\
-----END PGP SIGNATURE-----\n";
    let (body, sig) = split_inrelease(&doc.to_vec()).unwrap();
    assert_eq!(body, b"Suite: stable\nCodename: bookworm".to_vec());
    assert_eq!(
        sig,
        b"-----BEGIN PGP SIGNATURE-----\n\niQEzBAEBCAAdFiEE\n-----END PGP SIGNATURE-----\n"
            .to_vec()
    );
}

#[test]
fn inrelease_framing_survives_surrounding_whitespace() {
    let doc = b"\n  \n-----BEGIN PGP SIGNED MESSAGE-----\n\
Hash: SHA256\n\
\n\
Suite: stable  \n\
-----BEGIN PGP SIGNATURE-----\n\
sig\n\
-----END PGP SIGNATURE-----\n\n   \n";
    let (body, _sig) = split_inrelease(&doc.to_vec()).unwrap();
    assert_eq!(body, b"Suite: stable  ".to_vec());
}

#[test]
fn truncated_document_is_malformed() {
    let doc = b"-----BEGIN PGP SIGNED MESSAGE-----\n\nSuite: stable\n";
    assert_eq!(
        split_inrelease(&doc.to_vec()),
        Err(SyncError::MalformedSignedDocument)
    );
}

#[test]
fn digests_compare_case_insensitively() {
    let digest = vec![0xabu8, 0x01, 0xff];
    assert_eq!(hex_lower(&digest), b"ab01ff".to_vec());
    assert!(digest_matches(&b"AB01FF".to_vec(), &digest));
    assert!(digest_matches(&b"ab01ff".to_vec(), &digest));
    assert!(!digest_matches(&b"ab01fe".to_vec(), &digest));
}

#[test]
fn checksum_file_accepts_and_rejects() {
    // sha256("abc")
    let good = ReleaseFileEntry {
        path: b"main/binary-amd64/Packages".to_vec(),
        size: 3,
        algm: AptMetadataHashAlgm::Sha256,
        hash: b"BA7816BF8F01CFEA414140DE5DAE2223B00361A396177A9CB410FF61F20015AD".to_vec(),
    };
    let data = b"abc".to_vec();
    assert_eq!(checksum_file(&good, &data), Ok(()));
    let mut bad = good.clone();
    bad.hash = b"ba7816bf8f01cfea414140de5dae2223b00361a396177a9cb410ff61f20015ae".to_vec();
    assert_eq!(
        checksum_file(&bad, &data),
        Err(apt_mirror_sync::SyncError::ChecksumMismatch)
    );
}
