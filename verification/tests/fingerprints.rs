//! Content fingerprints and the should-render decision.

use tilecore::digest::{content_hash, needs_render};

#[test]
fn fingerprint_is_the_hex_sha256() {
    // The well-known SHA-256 test vector for "abc".
    let h = content_hash(&b"abc".to_vec());
    assert_eq!(
        h,
        "ba7816bf8f01cfea414140de5dae2223b00361a396177a9cb410ff61f20015ad"
    );
    let empty = content_hash(&Vec::new());
    assert_eq!(
        empty,
        "e3b0c44298fc1c149afbf4c8996fb92427ae41e4649b934ca495991b7852b855"
    );
    assert_eq!(h.len(), 64);
    assert_ne!(h, empty);
}

#[test]
fn unchanged_files_with_existing_output_are_skipped() {
    let current = content_hash(&b"scene".to_vec());
    let same = current.clone();
    let other = content_hash(&b"other scene".to_vec());
    // Only a matching stored fingerprint plus a surviving output file
    // lets the render loop skip the file.
    assert!(!needs_render(Some(&same), &current, true));
    assert!(needs_render(Some(&same), &current, false));
    assert!(needs_render(Some(&other), &current, true));
    assert!(needs_render(None, &current, true));
    assert!(needs_render(None, &current, false));
}
