use clipx::digest::digest_of;
use clipx::endian::{from_be, leading_u64, to_be};
use clipx::fingerprint::{
    fingerprint, image_fingerprint, image_payload_fingerprint, manifest_identity, text_fingerprint,
    transfer_component,
};
use clipx::wire::{ClipboardPayload, TransferEntry, TransferEntryKind};
use sha2::{Digest, Sha256};
use std::collections::hash_map::DefaultHasher;
use std::hash::{Hash, Hasher};

#[derive(Hash)]
enum Kind {
    File,
    Directory,
}

#[derive(Hash)]
struct Entry {
    path: Vec<u8>,
    kind: Kind,
    size: u64,
    mode: Option<u32>,
}

#[test]
fn captured_text_matches_wire_text_fingerprint() {
    let text = "hello";
    assert_eq!(
        text_fingerprint(text),
        fingerprint(&ClipboardPayload::Text(text.to_owned()))
    );
}

#[test]
fn texts_and_images_hash_as_the_standard_library_hashes_them() {
    for text in ["", "hello", "剪贴板"] {
        let mut hasher = DefaultHasher::new();
        0u8.hash(&mut hasher);
        text.hash(&mut hasher);
        assert_eq!(text_fingerprint(text), hasher.finish());
    }
    let mut hasher = DefaultHasher::new();
    1u8.hash(&mut hasher);
    3u32.hash(&mut hasher);
    2u32.hash(&mut hasher);
    vec![9u8, 8, 7].hash(&mut hasher);
    assert_eq!(
        fingerprint(&ClipboardPayload::Image {
            width: 3,
            height: 2,
            bytes: vec![9, 8, 7],
        }),
        hasher.finish()
    );
}

#[test]
fn manifests_hash_as_the_standard_library_hashes_them() {
    let entries = vec![
        TransferEntry {
            path: b"dir".to_vec(),
            kind: TransferEntryKind::Directory,
            size: 0,
            mode: None,
        },
        TransferEntry {
            path: b"dir/\xff".to_vec(),
            kind: TransferEntryKind::File,
            size: 77,
            mode: Some(0o644),
        },
    ];
    let times = vec![5u128, u128::MAX];
    let mut hasher = DefaultHasher::new();
    Entry {
        path: b"dir".to_vec(),
        kind: Kind::Directory,
        size: 0,
        mode: None,
    }
    .hash(&mut hasher);
    5u128.hash(&mut hasher);
    Entry {
        path: b"dir/\xff".to_vec(),
        kind: Kind::File,
        size: 77,
        mode: Some(0o644),
    }
    .hash(&mut hasher);
    u128::MAX.hash(&mut hasher);
    assert_eq!(manifest_identity(&entries, &times), hasher.finish());
    assert_ne!(
        manifest_identity(&entries, &vec![6, u128::MAX]),
        hasher.finish()
    );
}

#[test]
fn images_are_known_by_the_start_of_their_digest() {
    let mut hasher = Sha256::new();
    hasher.update(640u32.to_be_bytes());
    hasher.update(480u32.to_be_bytes());
    hasher.update(b"pixels");
    let digest: [u8; 32] = hasher.finalize().into();
    let mut start = [0u8; 8];
    start.copy_from_slice(&digest[..8]);
    let expected = u64::from_be_bytes(start);
    assert_eq!(image_fingerprint(640, 480, b"pixels"), expected);
    assert_eq!(image_payload_fingerprint(640, 480, b"pixels"), expected);
    assert_ne!(image_fingerprint(480, 640, b"pixels"), expected);
    assert_eq!(leading_u64(&digest), expected);
}

#[test]
fn digests_are_those_of_the_standard() {
    let mut expected = String::new();
    for byte in digest_of(b"abc") {
        expected.push_str(&format!("{byte:02x}"));
    }
    assert_eq!(
        expected,
        "ba7816bf8f01cfea414140de5dae2223b00361a396177a9cb410ff61f20015ad"
    );
}

#[test]
fn directories_of_transfers_are_short_and_distinct() {
    let mut hasher = DefaultHasher::new();
    "origin-1-id".hash(&mut hasher);
    assert_eq!(
        transfer_component("origin-1-id"),
        format!("origin-1-id-{:016x}", hasher.finish())
    );
    let long = "x/".repeat(100);
    let name = transfer_component(&long);
    assert_eq!(name.len(), 64 + 1 + 16);
    assert!(name.starts_with(&"x_".repeat(32)));
    assert_ne!(transfer_component("a/b"), transfer_component("a_b"));
}

#[test]
fn numbers_are_written_most_significant_byte_first() {
    for n in [0u32, 1, 0x0102_0304, u32::MAX] {
        assert_eq!(to_be(n), n.to_be_bytes());
        assert_eq!(from_be(to_be(n)), n);
    }
}
