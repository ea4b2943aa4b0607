use clipx::capture::{
    capture_files, files_summary, is_internal_cache_path, manifest_copy, CaptureError,
    CapturedFiles, CopiedPath, FileKind, FileMeta,
};
use clipx::fingerprint::{manifest_identity, transfer_component};
use clipx::manifest::{check_bulk, check_tree, key_text, ManifestError};
use clipx::order::{is_before, name_order};
use clipx::paths::{PathError, RelativePath};
use clipx::progress::TransferError;
use clipx::receive::{is_stale, transfer_summary, IncomingTransfer};
use clipx::send::{abort_message, after_send, FileSender, SendError, SendOutcome};
use clipx::wire::{
    checked_total, TransferEntry, TransferEntryKind, WireMessage, CHUNK_SIZE, MAX_MANIFEST_ENTRIES,
    MAX_TRANSFER_BYTES,
};
use sha2::{Digest, Sha256};
use std::sync::Arc;

fn file(path: &str, size: u64) -> TransferEntry {
    TransferEntry {
        path: path.as_bytes().to_vec(),
        kind: TransferEntryKind::File,
        size,
        mode: Some(0o644),
    }
}

fn directory(path: &str) -> TransferEntry {
    TransferEntry {
        path: path.as_bytes().to_vec(),
        kind: TransferEntryKind::Directory,
        size: 0,
        mode: Some(0o755),
    }
}

fn meta(kind: FileKind, size: u64) -> FileMeta {
    FileMeta {
        kind,
        size,
        mode: Some(0o600),
        modified_nanos: 1_000,
    }
}

fn relative(components: &[&str]) -> RelativePath {
    RelativePath {
        components: components.iter().map(|c| c.as_bytes().to_vec()).collect(),
    }
}

fn digest(bytes: &[u8]) -> [u8; 32] {
    Sha256::digest(bytes).into()
}

fn fault(entries: Vec<TransferEntry>) -> Option<ManifestError> {
    IncomingTransfer::start("id", "scope", entries).err()
}

/// A tree of which the numbers are the places in the list: its directories hold
/// the names and numbers that follow them.
fn capture(
    roots: Vec<(u64, &str)>,
    tree: &[(u64, FileMeta, Vec<(u64, &str)>)],
) -> Result<CapturedFiles, CaptureError> {
    let roots = roots
        .into_iter()
        .map(|(source, name)| CopiedPath {
            source,
            name: Some(name.as_bytes().to_vec()),
        })
        .collect();
    let mut capture = capture_files(&roots, false)?;
    while let Some(source) = capture.next_source()? {
        let (_, meta, children) = tree.iter().find(|node| node.0 == source).unwrap();
        if capture.capture_entry(*meta)? {
            let names = children.iter().map(|c| c.1.as_bytes().to_vec()).collect();
            let sources = children.iter().map(|c| c.0).collect();
            capture.list_directory(&names, &sources);
        }
    }
    Ok(capture.finish())
}

fn sample(child_size: u64) -> CapturedFiles {
    capture(
        vec![(0, "root"), (5, "other.txt")],
        &[
            (
                0,
                meta(FileKind::Directory, 4096),
                vec![(2, "top.txt"), (1, "nested"), (3, "Empty")],
            ),
            (1, meta(FileKind::Directory, 4096), vec![(4, "child.txt")]),
            (2, meta(FileKind::File, 3), vec![]),
            (3, meta(FileKind::Directory, 4096), vec![]),
            (4, meta(FileKind::File, child_size), vec![]),
            (5, meta(FileKind::File, 0), vec![]),
        ],
    )
    .unwrap()
}

#[test]
fn captured_trees_are_listed_in_order_of_name() {
    let files = sample(5);
    let paths: Vec<&[u8]> = files.entries.iter().map(|e| &e.entry.path[..]).collect();
    assert_eq!(
        paths,
        vec![
            &b"root"[..],
            b"root/Empty",
            b"root/nested",
            b"root/nested/child.txt",
            b"root/top.txt",
            b"other.txt"
        ]
    );
    assert_eq!(files.entries[0].entry.size, 0);
    assert_eq!(files.entries[3].source, Some(4));
    assert_eq!(files.entries[3].entry.mode, Some(0o600));
    assert_eq!(files.entries[2].source, None);
    assert_eq!(files.total_bytes(), Some(8));
    assert_eq!(files_summary(&files), "3 个文件、3 个目录（8 B）");
    let times = files.entries.iter().map(|e| e.modified_nanos).collect();
    assert_eq!(
        files.identity,
        manifest_identity(&manifest_copy(&files.entries), &times)
    );
    assert_eq!(files.internal, false);
}

#[test]
fn identity_changes_when_a_child_changes() {
    assert_ne!(sample(5).identity, sample(6).identity);
    assert_eq!(sample(5).identity, sample(5).identity);
}

#[test]
fn captured_manifests_are_accepted() {
    let files = sample(5);
    let transfer =
        IncomingTransfer::start("id", "scope", manifest_copy(&files.entries)).unwrap();
    assert_eq!(transfer.total_bytes(), 8);
    assert_eq!(transfer.roots(), vec![relative(&["root"]), relative(&["other.txt"])]);
}

#[test]
fn each_error_of_a_capture() {
    let one = |kind| {
        capture(vec![(0, "x")], &[(0, meta(kind, 1), vec![])])
            .err()
            .unwrap()
    };
    assert_eq!(capture(vec![], &[]).err(), Some(CaptureError::Empty));
    assert_eq!(one(FileKind::Symlink), CaptureError::Symlink);
    assert_eq!(one(FileKind::Special), CaptureError::SpecialFile);
    let unnamed = vec![CopiedPath {
        source: 0,
        name: None,
    }];
    assert_eq!(
        capture_files(&unnamed, false).ok().unwrap().next_source(),
        Err(CaptureError::NoName)
    );
    assert_eq!(
        capture(
            vec![(0, "A.txt"), (1, "a.TXT")],
            &[
                (0, meta(FileKind::File, 1), vec![]),
                (1, meta(FileKind::File, 1), vec![]),
            ]
        )
        .err(),
        Some(CaptureError::DuplicatePath)
    );
    assert_eq!(
        capture(vec![(0, "..")], &[(0, meta(FileKind::File, 1), vec![])]).err(),
        Some(CaptureError::InvalidPath(PathError::InvalidComponent))
    );
}

#[test]
fn a_capture_stops_at_the_longest_manifest() {
    let names: Vec<Vec<u8>> = (0..MAX_MANIFEST_ENTRIES)
        .map(|n| format!("{n:06}").into_bytes())
        .collect();
    let sources: Vec<u64> = (1..=MAX_MANIFEST_ENTRIES as u64).collect();
    let roots = vec![CopiedPath {
        source: 0,
        name: Some(b"root".to_vec()),
    }];
    let mut capture = capture_files(&roots, true).ok().unwrap();
    assert_eq!(capture.next_source(), Ok(Some(0)));
    assert_eq!(
        capture.capture_entry(meta(FileKind::Directory, 0)),
        Ok(true)
    );
    capture.list_directory(&names, &sources);
    for source in 1..MAX_MANIFEST_ENTRIES as u64 {
        assert_eq!(capture.next_source(), Ok(Some(source)));
        assert_eq!(capture.capture_entry(meta(FileKind::File, 1)), Ok(false));
    }
    assert_eq!(capture.next_source(), Err(CaptureError::TooManyEntries));
}

#[test]
fn names_are_ordered_by_their_bytes() {
    let names: Vec<Vec<u8>> = ["b", "a", "B", "ab", "", "é"]
        .iter()
        .map(|n| n.as_bytes().to_vec())
        .collect();
    let mut sorted = names.clone();
    sorted.sort();
    let ordered: Vec<Vec<u8>> = name_order(&names)
        .into_iter()
        .map(|at| names[at].clone())
        .collect();
    assert_eq!(ordered, sorted);
    assert!(is_before(b"a", b"ab"));
    assert!(!is_before(b"a", b"a"));
    assert!(!is_before(b"b", b"ab"));
}

#[test]
fn received_files_are_told_by_their_directory() {
    let root = relative(&["tmp", "clipx-sync"]);
    let inside = relative(&["tmp", "clipx-sync", "a"]);
    let outside = relative(&["tmp", "link"]);
    assert!(is_internal_cache_path(&inside, &root, None, None));
    assert!(is_internal_cache_path(&root, &root, None, None));
    assert!(!is_internal_cache_path(&outside, &root, None, Some(&root)));
    assert!(is_internal_cache_path(
        &outside,
        &root,
        Some(&inside),
        Some(&root)
    ));
    assert!(!is_internal_cache_path(
        &outside,
        &root,
        Some(&outside),
        Some(&root)
    ));
    assert!(!is_internal_cache_path(
        &relative(&["tmp", "clipx-sync2"]),
        &root,
        None,
        None
    ));
}

#[test]
fn each_error_of_a_manifest() {
    assert_eq!(fault(vec![]), Some(ManifestError::Empty));
    assert_eq!(
        fault(vec![directory("a"); MAX_MANIFEST_ENTRIES + 1]),
        Some(ManifestError::TooManyEntries)
    );
    assert_eq!(
        fault(vec![file("a", u64::MAX), file("b", 1)]),
        Some(ManifestError::SizeOverflow)
    );
    assert_eq!(
        fault(vec![file("a", MAX_TRANSFER_BYTES), file("b", 1)]),
        Some(ManifestError::TooLarge)
    );
    assert_eq!(
        fault(vec![file("a", 1), file("../b", 1)]),
        Some(ManifestError::InvalidPath(1))
    );
    assert_eq!(
        fault(vec![file("a", 1), file("x", 1), file("A", 1)]),
        Some(ManifestError::DuplicatePath(2))
    );
    assert_eq!(
        fault(vec![file("con", 1), file("con_", 1)]),
        Some(ManifestError::DuplicatePath(1))
    );
    assert_eq!(
        fault(vec![file("a/b/c", 1), file("a\\B", 1)]),
        Some(ManifestError::FileAsParent(0))
    );
    let mut sized = directory("a");
    sized.size = 1;
    assert_eq!(fault(vec![sized]), Some(ManifestError::DirectorySize(0)));
    assert_eq!(fault(vec![file("a/b", 1)]), Some(ManifestError::NoRoot));
    assert_eq!(fault(vec![file("a", MAX_TRANSFER_BYTES)]), None);
    assert_eq!(check_bulk(&vec![file("a", 4), file("b", 5)]), Ok(9));
    assert_eq!(
        check_tree(&vec![directory("a"), file("a/b?", 5)]),
        Ok(vec![relative(&["a"]), relative(&["a", "b_"])])
    );
    assert_eq!(checked_total(&vec![file("a", u64::MAX)]), Some(u64::MAX));
    assert_eq!(
        checked_total(&vec![file("a", u64::MAX), file("b", 1)]),
        None
    );
    assert_ne!(key_text(b"\xe9"), key_text("é".as_bytes()));
}

#[test]
fn file_chunks_are_verified_before_they_are_kept() {
    let mut transfer =
        IncomingTransfer::start("test-1", "0", vec![file("sample.txt", 11)]).unwrap();
    assert_eq!(transfer.accept_chunk(0, 0, b"hello "), Ok(true));
    assert_eq!(transfer.accept_chunk(0, 6, b"world"), Ok(false));
    assert_eq!(transfer.all_finished(), false);
    assert_eq!(
        transfer.finish_file(0, digest(b"hello worlD")),
        Err(TransferError::DigestMismatch)
    );
    assert_eq!(transfer.finish_file(0, digest(b"hello world")), Ok(false));
    assert_eq!(transfer.all_finished(), true);
    assert_eq!(transfer.directory(), transfer_component("0-test-1"));
    assert_eq!(transfer.entry_of(0), Some(0));
    assert_eq!(transfer.entry_of(1), None);
    let finished = transfer.finish(&vec![77]).ok().unwrap();
    assert_eq!(finished.roots, vec![relative(&["sample.txt"])]);
    assert_eq!(finished.modes, vec![(relative(&["sample.txt"]), 0o644)]);
    assert_eq!(finished.directory, transfer_component("0-test-1"));
    assert_eq!(
        finished.fingerprint,
        manifest_identity(&vec![file("sample.txt", 11)], &vec![77])
    );
}

#[test]
fn empty_files_are_made_when_they_end() {
    let mut transfer =
        IncomingTransfer::start("x", "0", vec![directory("d"), file("d/e", 0)]).unwrap();
    assert_eq!(
        transfer.directories(),
        vec![relative(&["d"]), relative(&["d"])]
    );
    assert_eq!(transfer.paths().len(), 2);
    assert_eq!(transfer.entry_of(0), Some(1));
    assert_eq!(transfer.finish_file(0, digest(b"")), Ok(true));
    assert_eq!(transfer.summary(), "1 个文件、1 个目录（0 B）");
    assert_eq!(
        transfer.modes(),
        vec![(relative(&["d", "e"]), 0o644), (relative(&["d"]), 0o755)]
    );
}

#[test]
fn each_error_of_a_transfer() {
    let mut transfer = IncomingTransfer::start("x", "0", vec![file("a", 4)]).unwrap();
    assert_eq!(
        transfer.accept_chunk(0, 0, b""),
        Err(TransferError::ChunkSize)
    );
    assert_eq!(
        transfer.accept_chunk(0, 0, &vec![0; CHUNK_SIZE + 1]),
        Err(TransferError::ChunkSize)
    );
    assert_eq!(
        transfer.accept_chunk(1, 0, b"x"),
        Err(TransferError::ChunkIndex)
    );
    assert_eq!(
        transfer.accept_chunk(0, 2, b"x"),
        Err(TransferError::Offset {
            expected: 0,
            actual: 2
        })
    );
    assert_eq!(
        transfer.accept_chunk(0, 0, b"12345"),
        Err(TransferError::TooLong)
    );
    assert_eq!(
        transfer.finish_file(1, [0; 32]),
        Err(TransferError::EndIndex)
    );
    assert_eq!(
        transfer.finish_file(0, [0; 32]),
        Err(TransferError::SizeMismatch {
            expected: 4,
            actual: 0
        })
    );
    assert_eq!(transfer.accept_chunk(0, 0, b"1234"), Ok(true));
    assert_eq!(transfer.finish_file(0, digest(b"1234")), Ok(false));
    assert_eq!(
        transfer.accept_chunk(0, 4, b"x"),
        Err(TransferError::ChunkAfterEnd)
    );
    assert_eq!(
        transfer.finish_file(0, digest(b"1234")),
        Err(TransferError::EndTwice)
    );
    let unfinished = IncomingTransfer::start("x", "0", vec![file("a", 4)]).unwrap();
    assert_eq!(
        unfinished.finish(&vec![0]).err(),
        Some(TransferError::Unfinished)
    );
}

#[test]
fn leftovers_are_stale_after_a_week() {
    assert!(!is_stale(None));
    assert!(!is_stale(Some(7 * 24 * 3600 - 1)));
    assert!(is_stale(Some(7 * 24 * 3600)));
}

#[test]
fn summaries_count_files_and_directories() {
    assert_eq!(transfer_summary(2, 0, 1_500), "2 个文件、0 个目录（1.5 KB）");
}

/// Sends what `sample` captured, with these contents, and receives it.
fn contents(source: u64) -> Vec<u8> {
    match source {
        2 => b"top".to_vec(),
        4 => vec![0xab; CHUNK_SIZE + 10],
        _ => vec![],
    }
}

#[test]
fn files_that_are_sent_arrive() {
    let files = Arc::new(sample((CHUNK_SIZE + 10) as u64));
    let (mut sender, start) = FileSender::send_file_transfer("id", files.clone())
        .ok()
        .unwrap();
    let WireMessage::TransferStart { id, entries } = start else {
        panic!("start expected");
    };
    assert_eq!(id, "id");
    let mut transfer = IncomingTransfer::start(&id, "s", entries).unwrap();
    let mut received: Vec<(usize, Vec<u8>)> = Vec::new();
    while let Some(source) = sender.next_source() {
        let bytes = contents(source);
        let now = meta(FileKind::File, bytes.len() as u64);
        assert_eq!(sender.check_before(now), Ok(()));
        let mut whole = Vec::new();
        for chunk in bytes.chunks(CHUNK_SIZE) {
            let message = sender.send_chunk(chunk.to_vec()).unwrap();
            let WireMessage::TransferChunk {
                file_index,
                offset,
                bytes,
                ..
            } = message
            else {
                panic!("chunk expected");
            };
            assert_eq!(
                transfer.accept_chunk(file_index, offset, &bytes),
                Ok(offset == 0)
            );
            whole.extend(bytes);
        }
        let WireMessage::TransferFileEnd {
            file_index, sha256, ..
        } = sender.end_file(now).unwrap()
        else {
            panic!("end expected");
        };
        assert_eq!(
            transfer.finish_file(file_index, sha256),
            Ok(bytes.is_empty())
        );
        received.push((transfer.entry_of(file_index).unwrap(), whole));
    }
    assert_eq!(
        sender.end_message(),
        WireMessage::TransferEnd {
            id: "id".to_string()
        }
    );
    assert!(transfer.all_finished());
    assert_eq!(received.len(), 3);
    for (entry, bytes) in received {
        assert!(bytes == contents(files.entries[entry].source.unwrap()));
    }
    let times = files.entries.iter().map(|e| e.modified_nanos).collect();
    let finished = transfer.finish(&times).ok().unwrap();
    assert_eq!(finished.fingerprint, files.identity);
}

#[test]
fn each_error_of_sending() {
    let one = |size| {
        Arc::new(
            capture(
                vec![(0, "a"), (1, "b")],
                &[
                    (0, meta(FileKind::File, size), vec![]),
                    (1, meta(FileKind::File, 1), vec![]),
                ],
            )
            .unwrap(),
        )
    };
    assert_eq!(
        FileSender::send_file_transfer("x", one(u64::MAX)).err(),
        Some(SendError::SizeOverflow)
    );
    assert_eq!(
        FileSender::send_file_transfer("x", one(MAX_TRANSFER_BYTES)).err(),
        Some(SendError::TooLarge)
    );
    let (mut sender, _) = FileSender::send_file_transfer("x", one(2)).ok().unwrap();
    assert_eq!(sender.next_source(), Some(0));
    assert_eq!(
        sender.check_before(meta(FileKind::File, 3)),
        Err(SendError::ChangedBefore)
    );
    let mut touched = meta(FileKind::File, 2);
    touched.modified_nanos += 1;
    assert_eq!(sender.check_before(touched), Err(SendError::ChangedBefore));
    assert_eq!(sender.send_chunk(vec![0; 3]), Err(SendError::Grew));
    assert!(sender.send_chunk(vec![0; 2]).is_ok());
    assert_eq!(sender.end_file(touched), Err(SendError::ChangedMeanwhile));
    assert!(sender.end_file(meta(FileKind::File, 2)).is_ok());
    assert_eq!(sender.next_source(), Some(1));
    assert_eq!(
        sender.end_file(meta(FileKind::File, 1)),
        Err(SendError::ChangedMeanwhile)
    );
    assert_eq!(
        abort_message("x"),
        WireMessage::TransferAbort {
            id: "x".to_string()
        }
    );
}

#[test]
fn received_files_are_known_again() {
    let tree = |first: Vec<(u64, &'static str)>| {
        capture(
            vec![(0, "root")],
            &[
                (0, meta(FileKind::Directory, 4096), first),
                (1, meta(FileKind::File, 3), vec![]),
                (2, meta(FileKind::Directory, 8192), vec![(3, "c")]),
                (3, meta(FileKind::File, 0), vec![]),
            ],
        )
        .unwrap()
    };
    let sent = tree(vec![(1, "b.txt"), (2, "a")]);
    let mut transfer =
        IncomingTransfer::start("id", "scope", manifest_copy(&sent.entries)).unwrap();
    assert_eq!(transfer.finish_file(0, digest(b"")), Ok(true));
    assert_eq!(transfer.accept_chunk(1, 0, b"abc"), Ok(true));
    assert_eq!(transfer.finish_file(1, digest(b"abc")), Ok(false));
    let finished = transfer.finish(&vec![1_000; 4]).ok().unwrap();
    assert_eq!(finished.roots, vec![relative(&["root"])]);
    let received = tree(vec![(2, "a"), (1, "b.txt")]);
    assert_eq!(received.identity, finished.fingerprint);
}

#[test]
fn a_transfer_that_fails_is_taken_back() {
    assert_eq!(after_send("x", SendOutcome::Sent), None);
    assert_eq!(
        after_send("x", SendOutcome::Failed),
        Some(WireMessage::TransferAbort {
            id: "x".to_string()
        })
    );
}
