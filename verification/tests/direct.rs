use clipx::capture::{CopiedPath, FileKind, FileMeta};
use clipx::cli::Argument;
use clipx::direct::capture::{
    capture_files, files_summary, manifest_copy, CaptureError, CapturedFiles,
};
use clipx::direct::clipboard::{
    capture_payload, captured_fingerprint, send_payload, CapturedPayload, ClipboardError, Outgoing,
    OutgoingError,
};
use clipx::direct::connect::{connect_outcome, connect_step, ConnectAction, ConnectStage};
use clipx::direct::hub::{HubError, PeerHub};
use clipx::direct::options::{run, usage, DirectCommand, DirectOptions, OptionsError};
use clipx::direct::paths::{portable_component, portable_relative_path, safe_relative_path};
use clipx::direct::receive::{IncomingTransfer, ManifestError};
use clipx::direct::send::{abort_message, after_send, FileSender, SendError};
use clipx::direct::state::{Action, ClipboardState, Refusal};
use clipx::direct::wire::{
    checked_total, fingerprint, manifest_identity, transfer_component, TransferEntry, WireMessage,
};
use clipx::image::RawImage;
use clipx::paths::{PathError, RelativePath};
use clipx::progress::TransferError;
use clipx::send::SendOutcome;
use clipx::wire::{
    ClipboardPayload, TransferEntryKind, CHUNK_SIZE, MAX_MANIFEST_ENTRIES, MAX_TRANSFER_BYTES,
};
use sha2::{Digest, Sha256};
use std::collections::hash_map::DefaultHasher;
use std::hash::{Hash, Hasher};
use std::sync::Arc;

#[derive(Hash)]
enum Kind {
    File,
    Directory,
}

#[derive(Hash)]
struct Entry {
    path: String,
    kind: Kind,
    size: u64,
    mode: Option<u32>,
}

#[derive(Hash)]
enum Payload {
    Text(String),
    Image {
        width: u32,
        height: u32,
        bytes: Vec<u8>,
    },
}

fn file(path: &str, size: u64) -> TransferEntry {
    TransferEntry {
        path: path.to_string(),
        kind: TransferEntryKind::File,
        size,
        mode: Some(0o644),
    }
}

fn directory(path: &str) -> TransferEntry {
    TransferEntry {
        path: path.to_string(),
        kind: TransferEntryKind::Directory,
        size: 0,
        mode: None,
    }
}

fn digest(bytes: &[u8]) -> [u8; 32] {
    Sha256::digest(bytes).into()
}

fn meta(kind: FileKind, size: u64) -> FileMeta {
    FileMeta {
        kind,
        size,
        mode: None,
        modified_nanos: 3,
    }
}

/// A directory that holds `top.txt` and `nested/child.txt`.
fn tree() -> CapturedFiles {
    let roots = vec![CopiedPath {
        source: 0,
        name: Some(b"clipx-sync-test".to_vec()),
    }];
    let mut capture = capture_files(&roots, false).ok().unwrap();
    while let Some(source) = capture.next_source().unwrap() {
        match source {
            0 => {
                assert_eq!(
                    capture.collect_entry(meta(FileKind::Directory, 9)),
                    Ok(true)
                );
                capture.list_directory(
                    &vec![b"top.txt".to_vec(), b"nested".to_vec()],
                    &vec![1, 2],
                );
            }
            2 => {
                assert_eq!(
                    capture.collect_entry(meta(FileKind::Directory, 9)),
                    Ok(true)
                );
                capture.list_directory(&vec![b"child.txt".to_vec()], &vec![3]);
            }
            1 => assert_eq!(capture.collect_entry(meta(FileKind::File, 3)), Ok(false)),
            _ => assert_eq!(capture.collect_entry(meta(FileKind::File, 5)), Ok(false)),
        }
    }
    capture.finish()
}

#[test]
fn sync_relative_path_rejects_traversal() {
    assert!(safe_relative_path("../secret.txt").is_err());
    assert!(safe_relative_path("folder/../../secret.txt").is_err());
    assert_eq!(
        safe_relative_path("folder\\document.txt").ok().unwrap().text(),
        "folder/document.txt"
    );
}

#[test]
fn directory_manifest_preserves_relative_hierarchy() {
    let captured = tree();
    let paths: Vec<&str> = captured
        .entries
        .iter()
        .map(|entry| entry.entry.path.as_str())
        .collect();
    assert!(paths.iter().any(|path| path.ends_with("/top.txt")));
    assert!(paths.iter().any(|path| path.ends_with("/nested/child.txt")));
    assert_eq!(
        paths,
        vec![
            "clipx-sync-test",
            "clipx-sync-test/nested",
            "clipx-sync-test/nested/child.txt",
            "clipx-sync-test/top.txt"
        ]
    );
    assert_eq!(files_summary(&captured), "2 个文件、2 个目录（8 B）");
    assert_eq!(captured.total_bytes(), Some(8));
    assert_eq!(
        captured.identity,
        manifest_identity(&manifest_copy(&captured.entries), &vec![3, 3, 3, 3])
    );
}

#[test]
fn empty_directory_finishes_transfer() {
    let transfer = IncomingTransfer::start("empty-dir-1", vec![directory("empty")])
        .ok()
        .unwrap();
    assert_eq!(transfer.directories()[0].text(), "empty");
    let finished = transfer.finish(&vec![0]).ok().unwrap();
    assert_eq!(finished.roots[0].text(), "empty");
    assert_eq!(finished.directory, transfer_component("empty-dir-1"));
}

#[test]
fn direct_file_chunks_are_verified_before_they_are_kept() {
    let mut transfer = IncomingTransfer::start("test-1", vec![file("sample.txt", 11)])
        .ok()
        .unwrap();
    assert_eq!(transfer.accept_chunk(0, 0, b"hello world"), Ok(true));
    assert_eq!(
        transfer.finish_file(0, digest(b"hello")),
        Err(TransferError::DigestMismatch)
    );
    assert_eq!(transfer.finish_file(0, digest(b"hello world")), Ok(false));
    assert_eq!(transfer.summary(), "1 个文件、0 个目录（11 B）");
    let finished = transfer.finish(&vec![8]).ok().unwrap();
    assert_eq!(
        finished.fingerprint,
        manifest_identity(&vec![file("sample.txt", 11)], &vec![8])
    );
    let mut capture = capture_files(
        &vec![CopiedPath {
            source: 0,
            name: Some(b"sample.txt".to_vec()),
        }],
        true,
    )
    .ok()
    .unwrap();
    capture.next_source().unwrap();
    capture
        .collect_entry(FileMeta {
            kind: FileKind::File,
            size: 11,
            mode: Some(0o644),
            modified_nanos: 8,
        })
        .unwrap();
    assert_eq!(finished.fingerprint, capture.finish().identity);
    assert_eq!(finished.modes[0].1, 0o644);
    assert_eq!(finished.modes[0].0.text(), "sample.txt");
}

#[test]
fn direct_paths_are_portable() {
    for (name, expected) in [
        ("a<b>.", "a_b_"),
        ("con.txt", "con.txt"),
        ("con", "con_"),
        ("LPT1", "LPT1_"),
        ("目录 ", "目录"),
        ("", "_"),
    ] {
        assert_eq!(portable_component(name), expected);
    }
    assert_eq!(
        safe_relative_path("").err(),
        Some(PathError::InvalidComponent)
    );
    let path = RelativePath {
        components: vec![b"a".to_vec(), "é?".as_bytes().to_vec()],
    };
    assert_eq!(portable_relative_path(&path).ok().unwrap().text(), "a/é_");
    assert_eq!(
        portable_relative_path(&RelativePath { components: vec![] }).err(),
        Some(PathError::Empty)
    );
    let foreign = RelativePath {
        components: vec![b"a\xff".to_vec()],
    };
    assert_eq!(
        portable_relative_path(&foreign).ok().unwrap().text(),
        "a\u{fffd}"
    );
    let upwards = RelativePath {
        components: vec![b"a".to_vec(), b"..".to_vec()],
    };
    assert_eq!(
        portable_relative_path(&upwards).err(),
        Some(PathError::InvalidComponent)
    );
}

#[test]
fn direct_values_hash_as_the_standard_library_hashes_them() {
    let mut hasher = DefaultHasher::new();
    Entry {
        path: "d".to_string(),
        kind: Kind::Directory,
        size: 0,
        mode: None,
    }
    .hash(&mut hasher);
    7u128.hash(&mut hasher);
    Entry {
        path: "d/é".to_string(),
        kind: Kind::File,
        size: 4,
        mode: Some(0o644),
    }
    .hash(&mut hasher);
    8u128.hash(&mut hasher);
    assert_eq!(
        manifest_identity(&vec![directory("d"), file("d/é", 4)], &vec![7, 8]),
        hasher.finish()
    );
    let hash = |payload: &Payload| {
        let mut hasher = DefaultHasher::new();
        payload.hash(&mut hasher);
        hasher.finish()
    };
    assert_eq!(
        fingerprint(&ClipboardPayload::Text("hé".to_string())),
        hash(&Payload::Text("hé".to_string()))
    );
    assert_eq!(
        fingerprint(&ClipboardPayload::Image {
            width: 1,
            height: 2,
            bytes: vec![3, 4],
        }),
        hash(&Payload::Image {
            width: 1,
            height: 2,
            bytes: vec![3, 4],
        })
    );
}

#[test]
fn direct_clipboards_hold_files_an_image_or_a_text() {
    let image = |width, height| {
        Some(RawImage {
            width,
            height,
            bytes: vec![1, 2, 3, 4],
        })
    };
    let text = |text: &str| Some(text.to_string());
    match capture_payload(Some(tree()), image(1, 1), text("x")) {
        Ok(CapturedPayload::Files(files)) => assert_eq!(files.identity, tree().identity),
        _ => panic!("files expected"),
    }
    match capture_payload(None, image(1, 1), text("x")) {
        Ok(CapturedPayload::Image(payload)) => assert_eq!(
            payload,
            ClipboardPayload::Image {
                width: 1,
                height: 1,
                bytes: vec![1, 2, 3, 4],
            }
        ),
        _ => panic!("image expected"),
    }
    match capture_payload(None, None, text("x")) {
        Ok(CapturedPayload::Text(payload)) => {
            assert_eq!(payload, ClipboardPayload::Text("x".to_string()));
        }
        _ => panic!("text expected"),
    }
    let error = |image, text| capture_payload(None, image, text).err();
    assert_eq!(error(None, text("")), Some(ClipboardError::Empty));
    assert_eq!(error(None, None), Some(ClipboardError::Empty));
    assert_eq!(
        error(image(usize::MAX, usize::MAX), None),
        Some(ClipboardError::Width)
    );
    assert_eq!(
        error(image(1, usize::MAX), None),
        Some(ClipboardError::Height)
    );
}

#[test]
fn each_direct_clipboard_is_sent_in_its_way() {
    let payload = || ClipboardPayload::Text("x".to_string());
    let text = CapturedPayload::Text(payload());
    assert_eq!(captured_fingerprint(&text), fingerprint(&payload()));
    match send_payload("m", text) {
        Ok(Outgoing::Message(message)) => assert_eq!(
            message,
            WireMessage::Clipboard {
                id: "m".to_string(),
                payload: payload(),
            }
        ),
        _ => panic!("message expected"),
    }
    assert!(matches!(
        send_payload("m", CapturedPayload::Image(payload())),
        Ok(Outgoing::Message(_))
    ));
    let files = CapturedPayload::Files(Arc::new(tree()));
    assert_eq!(captured_fingerprint(&files), tree().identity);
    match send_payload("m", files) {
        Ok(Outgoing::Files(mut sender, WireMessage::TransferStart { fingerprint, .. })) => {
            assert_eq!(fingerprint, tree().identity);
            assert!(sender.next_source().is_some());
        }
        _ => panic!("files expected"),
    }
    let single = |size, internal| {
        let roots = vec![CopiedPath {
            source: 0,
            name: Some(b"a".to_vec()),
        }];
        let mut capture = capture_files(&roots, internal).ok().unwrap();
        capture.next_source().unwrap();
        capture.collect_entry(meta(FileKind::File, size)).unwrap();
        CapturedPayload::Files(Arc::new(capture.finish()))
    };
    // What was received is not sent on.
    assert!(matches!(
        send_payload("m", single(1, true)),
        Ok(Outgoing::Nothing)
    ));
    assert_eq!(
        send_payload("m", single(MAX_TRANSFER_BYTES + 1, false)).err(),
        Some(OutgoingError::Files(SendError::TooLarge))
    );
}

#[test]
fn each_error_of_a_direct_manifest() {
    let fault = |entries| IncomingTransfer::start("id", entries).err();
    assert_eq!(fault(vec![]), Some(ManifestError::Empty));
    assert_eq!(
        fault(vec![directory("a"); MAX_MANIFEST_ENTRIES + 1]),
        Some(ManifestError::TooManyEntries)
    );
    assert_eq!(
        IncomingTransfer::start("", vec![directory("a")]).err(),
        Some(ManifestError::EmptyId)
    );
    assert_eq!(
        fault(vec![file("a", u64::MAX), file("b", 1)]),
        Some(ManifestError::SizeOverflow)
    );
    assert_eq!(
        fault(vec![file("a", MAX_TRANSFER_BYTES + 1)]),
        Some(ManifestError::TooLarge)
    );
    assert_eq!(
        fault(vec![file("a", 1), file("..", 1)]),
        Some(ManifestError::InvalidPath(1))
    );
    assert_eq!(
        fault(vec![file("a.", 1), file("A", 1), file("a", 1)]),
        Some(ManifestError::DuplicatePath(2))
    );
    let mut sized = directory("a");
    sized.size = 1;
    assert_eq!(fault(vec![sized]), Some(ManifestError::DirectorySize(0)));
    assert_eq!(fault(vec![file("a/b", 1)]), Some(ManifestError::NoRoot));
    assert_eq!(checked_total(&vec![file("a", 1), file("b", 2)]), Some(3));
}

#[test]
fn each_error_of_a_direct_capture() {
    let start = |name: Option<&[u8]>| {
        capture_files(
            &vec![CopiedPath {
                source: 0,
                name: name.map(|n| n.to_vec()),
            }],
            false,
        )
        .ok()
        .unwrap()
    };
    assert_eq!(
        capture_files(&vec![], false).err(),
        Some(CaptureError::Empty)
    );
    assert_eq!(start(None).next_source(), Err(CaptureError::NoName));
    assert_eq!(start(Some(b"\xff")).next_source(), Err(CaptureError::NoName));
    for (kind, error) in [
        (FileKind::Symlink, CaptureError::Symlink),
        (FileKind::Special, CaptureError::SpecialFile),
    ] {
        let mut capture = start(Some(b"a"));
        assert_eq!(capture.next_source(), Ok(Some(0)));
        assert_eq!(capture.collect_entry(meta(kind, 0)), Err(error));
    }
    let roots: Vec<CopiedPath> = (0..2)
        .map(|source| CopiedPath {
            source,
            name: Some(b"a".to_vec()),
        })
        .collect();
    let mut capture = capture_files(&roots, false).ok().unwrap();
    assert_eq!(capture.next_source(), Ok(Some(0)));
    assert_eq!(capture.collect_entry(meta(FileKind::File, 0)), Ok(false));
    assert_eq!(capture.next_source(), Ok(Some(1)));
    assert_eq!(
        capture.collect_entry(meta(FileKind::File, 0)),
        Err(CaptureError::DuplicatePath)
    );
}

#[test]
fn direct_files_that_are_sent_arrive() {
    let files = Arc::new(tree());
    let (mut sender, start) = FileSender::send_file_transfer("m", files.clone())
        .ok()
        .unwrap();
    let mut state = ClipboardState::new(1, 2);
    let WireMessage::TransferStart {
        ref fingerprint, ..
    } = start
    else {
        panic!("start expected");
    };
    assert_eq!(*fingerprint, files.identity);
    assert!(matches!(state.handle_message(start), Action::Begin));
    assert_eq!(
        state.transfer("m").unwrap().directory(),
        transfer_component("m")
    );
    let mut written = Vec::new();
    while let Some(source) = sender.next_source() {
        let bytes = if source == 1 { &b"top"[..] } else { b"child" };
        let chunk = sender.send_chunk(bytes.to_vec()).unwrap();
        match state.handle_message(chunk) {
            Action::Write {
                entry,
                create,
                bytes,
            } => {
                assert!(create);
                written.push((entry, bytes));
            }
            _ => panic!("write expected"),
        }
        let end = sender.end_file().unwrap();
        assert!(matches!(
            state.handle_message(end),
            Action::Commit { create: false, .. }
        ));
    }
    assert_eq!(
        written,
        vec![(2, b"child".to_vec()), (3, b"top".to_vec())]
    );
    match state.handle_message(sender.end_message()) {
        Action::Finish { transfer } => {
            let finished = transfer.finish(&vec![3, 3, 3, 3]).ok().unwrap();
            assert_eq!(finished.fingerprint, files.identity);
            state.transfer_applied(finished.fingerprint);
        }
        _ => panic!("finish expected"),
    }
    assert_eq!(state.plan_send(files.identity), None);
}

#[test]
fn each_error_of_direct_sending() {
    let one = |size| {
        let roots = vec![CopiedPath {
            source: 0,
            name: Some(b"a".to_vec()),
        }];
        let mut capture = capture_files(&roots, false).ok().unwrap();
        capture.next_source().unwrap();
        capture.collect_entry(meta(FileKind::File, size)).unwrap();
        Arc::new(capture.finish())
    };
    assert_eq!(
        FileSender::send_file_transfer("m", one(MAX_TRANSFER_BYTES + 1)).err(),
        Some(SendError::TooLarge)
    );
    let (mut sender, _) = FileSender::send_file_transfer("m", one(2)).ok().unwrap();
    assert_eq!(sender.next_source(), Some(0));
    assert_eq!(sender.send_chunk(vec![0; 3]), Err(SendError::Grew));
    assert!(sender.send_chunk(vec![0; 1]).is_ok());
    assert_eq!(sender.end_file(), Err(SendError::Changed));
    assert_eq!(
        abort_message("m"),
        WireMessage::TransferAbort {
            id: "m".to_string()
        }
    );
}

#[test]
fn direct_messages_are_dealt_with_once() {
    let mut state = ClipboardState::new(1, 2);
    let text = || WireMessage::Clipboard {
        id: "m".to_string(),
        payload: ClipboardPayload::Text("x".to_string()),
    };
    match state.handle_message(text()) {
        Action::Apply {
            fingerprint: known,
            payload,
        } => {
            assert_eq!(known, fingerprint(&payload));
            state.payload_applied(known);
            assert_eq!(state.plan_send(known), None);
        }
        _ => panic!("apply expected"),
    }
    assert!(matches!(state.handle_message(text()), Action::Ignore));
}

#[test]
fn direct_transfers_that_break_a_rule_are_given_up() {
    let mut state = ClipboardState::new(1, 2);
    let start = |id: &str| WireMessage::TransferStart {
        id: id.to_string(),
        fingerprint: 0,
        entries: vec![file("a", 2)],
    };
    let chunk = |id: &str, bytes: Vec<u8>| WireMessage::TransferChunk {
        id: id.to_string(),
        file_index: 0,
        offset: 0,
        bytes,
    };
    assert!(matches!(
        state.handle_message(chunk("none", vec![1])),
        Action::Refuse(Refusal::UnknownTransfer)
    ));
    assert!(matches!(
        state.handle_message(WireMessage::TransferStart {
            id: "e".to_string(),
            fingerprint: 0,
            entries: vec![],
        }),
        Action::Refuse(Refusal::Manifest(ManifestError::Empty))
    ));
    state.handle_message(start("a"));
    match state.handle_message(chunk("a", vec![0; CHUNK_SIZE + 1])) {
        Action::GiveUp { directory, refusal } => {
            assert_eq!(directory, transfer_component("a"));
            assert_eq!(refusal, Refusal::Chunk(TransferError::ChunkSize));
        }
        _ => panic!("end expected"),
    }
    state.handle_message(start("b"));
    match state.handle_message(WireMessage::TransferFileEnd {
        id: "b".to_string(),
        file_index: 0,
        sha256: [0; 32],
    }) {
        Action::GiveUp { refusal, .. } => assert_eq!(
            refusal,
            Refusal::FileEnd(TransferError::SizeMismatch {
                expected: 2,
                actual: 0
            })
        ),
        _ => panic!("end expected"),
    }
    state.handle_message(start("c"));
    match state.handle_message(WireMessage::TransferEnd {
        id: "c".to_string(),
    }) {
        Action::GiveUp { refusal, .. } => {
            assert_eq!(refusal, Refusal::TransferEnd(TransferError::Unfinished));
        }
        _ => panic!("end expected"),
    }
    state.handle_message(start("d"));
    match state.handle_message(WireMessage::TransferAbort {
        id: "d".to_string(),
    }) {
        Action::Aborted { directory } => assert_eq!(directory, transfer_component("d")),
        _ => panic!("abort expected"),
    }
    state.handle_message(start("f"));
    assert!(state.take_transfer("f").is_some());
    assert!(state.take_transfer("f").is_none());
}

#[test]
fn a_direct_clipboard_is_announced_once() {
    let mut state = ClipboardState::new(1, 2);
    assert_eq!(state.plan_send(5), Some(("1-2-1".to_string(), true)));
    assert_eq!(state.finish_send(5, Some("down".to_string())), true);
    assert_eq!(state.plan_send(5), Some(("1-2-2".to_string(), false)));
    assert_eq!(state.finish_send(5, Some("down".to_string())), false);
    assert_eq!(state.finish_send(5, None), false);
    assert_eq!(state.plan_send(5), None);
    assert_eq!(state.capture_failed("x".to_string()), true);
    assert_eq!(state.capture_failed("x".to_string()), false);
}

#[test]
fn direct_devices_that_cannot_be_reached_are_dropped() {
    let mut hub = PeerHub { peers: vec![] };
    assert_eq!(hub.send_required(&vec![]), Err(HubError::NoPeers));
    for peer in [1, 2, 3] {
        hub.add(peer);
    }
    assert_eq!(hub.broadcast(&vec![true, false, true]), 2);
    assert_eq!(hub.peers, vec![1, 3]);
    assert_eq!(hub.send_required(&vec![true, false]), Ok(()));
    assert_eq!(hub.send_required(&vec![false]), Err(HubError::NoPeers));
    assert!(hub.peers.is_empty());
}

#[test]
fn direct_options_name_addresses() {
    let arguments = |values: &[&[u8]]| {
        values
            .iter()
            .map(|raw| Argument {
                raw: raw.to_vec(),
                socket_address: false,
            })
            .collect::<Vec<_>>()
    };
    assert_eq!(
        run(&arguments(&[b"--listen", b"a:1", b"--peer", b"b\xff:2"])),
        Ok(DirectCommand::Run(DirectOptions {
            listen: Some("a:1".to_string()),
            peer: Some("b\u{fffd}:2".to_string()),
        }))
    );
    assert_eq!(
        run(&arguments(&[b"--peer", b"a:1", b"--peer", b"b:2"])),
        Ok(DirectCommand::Run(DirectOptions {
            listen: None,
            peer: Some("b:2".to_string()),
        }))
    );
    assert_eq!(run(&arguments(&[b"--help"])), Ok(DirectCommand::Help));
    assert_eq!(run(&arguments(&[])), Err(OptionsError::NoAddress));
    assert_eq!(
        run(&arguments(&[b"--listen"])),
        Err(OptionsError::ListenMissing)
    );
    assert_eq!(
        run(&arguments(&[b"--peer"])),
        Err(OptionsError::PeerMissing)
    );
    assert_eq!(
        run(&arguments(&[b"--peer", b"a", b"x"])),
        Err(OptionsError::UnknownOption(2))
    );
    assert_eq!(run(&arguments(&[b"\xff"])), Err(OptionsError::NotUtf8));
    assert!(usage().contains("--listen"));
}

#[test]
fn a_direct_transfer_that_fails_is_taken_back() {
    assert_eq!(after_send("x", SendOutcome::Sent), None);
    assert_eq!(
        after_send("x", SendOutcome::Failed),
        Some(WireMessage::TransferAbort {
            id: "x".to_string()
        })
    );
    let mut state = ClipboardState::new(1, 2);
    state.handle_message(WireMessage::TransferStart {
        id: "x".to_string(),
        fingerprint: 0,
        entries: vec![file("a", 2)],
    });
    assert!(matches!(
        state.handle_message(after_send("x", SendOutcome::Failed).unwrap()),
        Action::Aborted { .. }
    ));
    assert!(state.transfer("x").is_none());
}

#[test]
fn a_direct_connection_is_sought_again_after_a_wait() {
    assert_eq!(
        connect_step(ConnectStage::Ready, false),
        (ConnectStage::Ready, ConnectAction::Connect)
    );
    assert_eq!(connect_outcome(true), ConnectStage::Connected);
    assert_eq!(
        connect_step(ConnectStage::Connected, true),
        (ConnectStage::Connected, ConnectAction::Sleep { millis: 500 })
    );
    assert_eq!(
        connect_step(ConnectStage::Connected, false),
        (ConnectStage::Waiting, ConnectAction::Closed)
    );
    assert_eq!(connect_outcome(false), ConnectStage::Waiting);
    assert_eq!(
        connect_step(ConnectStage::Waiting, true),
        (ConnectStage::Ready, ConnectAction::Sleep { millis: 2_000 })
    );
}
