use clipx::fingerprint::{fingerprint, transfer_component};
use clipx::image::{encode_png, ImageError};
use clipx::manifest::ManifestError;
use clipx::progress::TransferError;
use clipx::seen::{SeenIds, MAX_SEEN};
use clipx::sessions::{DropRule, Session, SessionKey, SessionTable};
use clipx::state::{mark_remote_applied, valid_message_id, Action, Outcome, Refusal, SyncState};
use clipx::wire::{
    ClipboardPayload, IncomingEvent, TransferEntry, TransferEntryKind, WireMessage,
    MAX_ACTIVE_IMAGES, MAX_ACTIVE_TRANSFERS, SESSION_IDLE_TIMEOUT,
};
use sha2::{Digest, Sha256};
use std::collections::HashSet;

fn state() -> SyncState {
    SyncState::new(7, 99)
}

fn send(state: &mut SyncState, peer_id: u64, message: WireMessage) -> Outcome {
    state.handle_incoming_event(IncomingEvent::Message { peer_id, message }, 0)
}

fn text(id: &str) -> WireMessage {
    WireMessage::Clipboard {
        id: id.to_string(),
        payload: ClipboardPayload::Text("hello".to_string()),
    }
}

fn entry(path: &str, size: u64) -> TransferEntry {
    TransferEntry {
        path: path.as_bytes().to_vec(),
        kind: TransferEntryKind::File,
        size,
        mode: None,
    }
}

fn start(id: &str, size: u64) -> WireMessage {
    WireMessage::TransferStart {
        id: id.to_string(),
        entries: vec![entry("a", size)],
    }
}

fn chunk(id: &str, offset: u64, bytes: &[u8]) -> WireMessage {
    WireMessage::TransferChunk {
        id: id.to_string(),
        file_index: 0,
        offset,
        bytes: bytes.to_vec(),
    }
}

fn file_end(id: &str, bytes: &[u8]) -> WireMessage {
    WireMessage::TransferFileEnd {
        id: id.to_string(),
        file_index: 0,
        sha256: Sha256::digest(bytes).into(),
    }
}

fn transfer_end(id: &str) -> WireMessage {
    WireMessage::TransferEnd { id: id.to_string() }
}

fn image_start(id: &str, size: u64) -> WireMessage {
    WireMessage::ImageStart {
        id: id.to_string(),
        fingerprint: 5,
        width: 1,
        height: 1,
        size,
    }
}

fn refusal(outcome: Outcome) -> Option<Refusal> {
    match outcome.action {
        Action::Refuse(refusal) => Some(refusal),
        _ => None,
    }
}

fn directory(peer: u64, id: &str) -> String {
    transfer_component(&format!("7-99-{peer}-{id}"))
}

#[test]
fn sync_state_generates_unique_message_ids() {
    let mut state = state();
    assert_ne!(state.next_id(), state.next_id());
    assert_eq!(state.next_id(), "7-99-3");
}

#[test]
fn remote_clipboard_resets_delivery_tracking() {
    let mut state = state();
    state.last_fingerprint = Some(1);
    state.sent_peers.extend([2, 3]);

    mark_remote_applied(&mut state, 2, 4);
    assert_eq!(state.sent_peers, HashSet::from([4]));

    mark_remote_applied(&mut state, 2, 5);
    assert_eq!(state.sent_peers, HashSet::from([4, 5]));
}

#[test]
fn identifiers_have_limits() {
    assert!(!valid_message_id(""));
    assert!(valid_message_id(&"x".repeat(256)));
    assert!(!valid_message_id(&"x".repeat(257)));
    assert!(valid_message_id(&"é".repeat(128)));
    assert!(!valid_message_id(&"é".repeat(129)));
}

#[test]
fn a_clipboard_is_applied_once() {
    let mut state = state();
    let wanted = ClipboardPayload::Text("hello".to_string());
    let Action::Apply {
        id,
        fingerprint: known,
        payload,
    } = send(&mut state, 4, text("m")).action
    else {
        panic!("apply expected");
    };
    assert_eq!(payload, wanted);
    assert_eq!(known, fingerprint(&wanted));
    // Not known until it is on the clipboard.
    assert!(matches!(
        send(&mut state, 5, text("m")).action,
        Action::Apply { .. }
    ));
    state.clipboard_applied(&id, known, 4);
    assert!(matches!(
        send(&mut state, 5, text("m")).action,
        Action::Ignore
    ));
    assert!(matches!(
        send(&mut state, 5, text("")).action,
        Action::Ignore
    ));
    assert_eq!(state.last_fingerprint, Some(known));
}

#[test]
fn what_came_in_is_not_sent_back() {
    let mut state = state();
    let known = fingerprint(&ClipboardPayload::Text("hello".to_string()));
    state.clipboard_applied("m", known, 4);
    assert_eq!(state.plan_send(known, &vec![4]), None);
    assert_eq!(
        state.plan_send(known, &vec![4, 6]),
        Some(("7-99-1".to_string(), vec![6]))
    );
}

#[test]
fn a_clipboard_goes_to_each_device_once() {
    let mut state = state();
    let (_, targets) = state.plan_send(11, &vec![1, 2]).unwrap();
    assert_eq!(targets, vec![1, 2]);
    assert_eq!(state.finish_send(&targets, 11, None), false);
    assert_eq!(state.plan_send(11, &vec![1, 2]), None);
    assert_eq!(state.plan_send(11, &vec![2, 3]).unwrap().1, vec![3]);
    // Device 2 leaves and comes back.
    state.handle_incoming_event(IncomingEvent::Disconnected { peer_id: 2 }, 0);
    assert_eq!(state.plan_send(11, &vec![1, 2]).unwrap().1, vec![2]);
    assert_eq!(state.plan_send(12, &vec![1]).unwrap().1, vec![1]);
}

#[test]
fn an_error_is_announced_once() {
    let mut state = state();
    let failed = || Some("down".to_string());
    assert!(state.plan_send(1, &vec![1]).is_some());
    assert_eq!(state.finish_send(&vec![1], 1, failed()), true);
    // It is not tried again for the same clipboard.
    assert!(state.plan_send(1, &vec![1]).is_none());
    assert_eq!(state.finish_send(&vec![1], 2, failed()), false);
    assert_eq!(state.finish_send(&vec![1], 3, None), false);
    assert_eq!(state.finish_send(&vec![1], 1, failed()), true);
    assert_eq!(state.capture_failed("x".to_string()), true);
    assert_eq!(state.capture_failed("x".to_string()), false);
    assert_eq!(state.capture_failed("y".to_string()), true);
}

#[test]
fn files_come_in_step_by_step() {
    let mut state = state();
    let outcome = send(&mut state, 3, start("t", 5));
    assert!(matches!(outcome.action, Action::Begin));
    assert!(outcome.removed.is_empty());
    assert_eq!(
        state.transfer(3, "t").unwrap().directory(),
        directory(3, "t")
    );
    assert!(state.transfer(4, "t").is_none());
    // Another device cannot write to it.
    assert!(matches!(
        send(&mut state, 4, chunk("t", 0, b"12345")).action,
        Action::Ignore
    ));
    match send(&mut state, 3, chunk("t", 0, b"12345")).action {
        Action::Write {
            entry,
            create,
            bytes,
        } => assert_eq!((entry, create, bytes), (0, true, b"12345".to_vec())),
        _ => panic!("write expected"),
    }
    assert!(matches!(
        send(&mut state, 3, file_end("t", b"12345")).action,
        Action::Commit {
            entry: 0,
            create: false
        }
    ));
    match send(&mut state, 3, transfer_end("t")).action {
        Action::Finish { id, transfer } => {
            assert_eq!(id, "t");
            assert!(transfer.all_finished());
        }
        _ => panic!("finish expected"),
    }
    assert!(state.transfer(3, "t").is_none());
    state.clipboard_applied("t", 1, 3);
    assert!(matches!(
        send(&mut state, 3, start("t", 5)).action,
        Action::Ignore
    ));
}

#[test]
fn a_transfer_that_breaks_a_rule_is_given_up() {
    let mut state = state();
    send(&mut state, 3, start("t", 5));
    let outcome = send(&mut state, 3, chunk("t", 1, b"1"));
    assert_eq!(outcome.removed, vec![directory(3, "t")]);
    assert_eq!(
        refusal(outcome),
        Some(Refusal::Chunk(TransferError::Offset {
            expected: 0,
            actual: 1
        }))
    );
    send(&mut state, 3, start("t", 5));
    let outcome = send(&mut state, 3, file_end("t", b""));
    assert_eq!(outcome.removed, vec![directory(3, "t")]);
    assert_eq!(
        refusal(outcome),
        Some(Refusal::FileEnd(TransferError::SizeMismatch {
            expected: 5,
            actual: 0
        }))
    );
    send(&mut state, 3, start("t", 5));
    let outcome = send(&mut state, 3, transfer_end("t"));
    assert_eq!(outcome.removed, vec![directory(3, "t")]);
    assert_eq!(
        refusal(outcome),
        Some(Refusal::TransferEnd(TransferError::Unfinished))
    );
    assert_eq!(
        refusal(send(&mut state, 3, transfer_end("t"))),
        Some(Refusal::UnknownTransfer)
    );
}

#[test]
fn a_transfer_can_be_taken_back() {
    let mut state = state();
    send(&mut state, 3, start("t", 5));
    send(&mut state, 3, image_start("t", 9));
    let outcome = send(
        &mut state,
        3,
        WireMessage::TransferAbort {
            id: "t".to_string(),
        },
    );
    assert!(matches!(outcome.action, Action::Aborted));
    assert_eq!(outcome.removed, vec![directory(3, "t")]);
    assert!(state.active_images.items.is_empty());
    send(&mut state, 3, start("t", 5));
    assert_eq!(state.remove_transfer(3, "t"), vec![directory(3, "t")]);
    assert!(state.remove_transfer(3, "t").is_empty());
}

#[test]
fn transfers_have_limits() {
    let mut state = state();
    for n in 0..MAX_ACTIVE_TRANSFERS {
        assert!(matches!(
            send(&mut state, 1, start(&format!("{n}"), 1)).action,
            Action::Begin
        ));
    }
    assert_eq!(
        refusal(send(&mut state, 2, start("more", 1))),
        Some(Refusal::TooManyTransfers)
    );
    // One that begins again makes room for itself.
    let outcome = send(&mut state, 1, start("3", 1));
    assert_eq!(outcome.removed, vec![directory(1, "3")]);
    assert!(matches!(outcome.action, Action::Begin));
}

#[test]
fn announced_bytes_have_limits() {
    let gigabyte = 1024 * 1024 * 1024;
    let mut state = state();
    send(&mut state, 1, start("a", 32 * gigabyte));
    send(&mut state, 1, start("b", 32 * gigabyte));
    assert_eq!(
        refusal(send(&mut state, 1, start("c", 1))),
        Some(Refusal::TooManyTransferBytes)
    );
    assert_eq!(
        refusal(send(
            &mut state,
            1,
            WireMessage::TransferStart {
                id: "d".to_string(),
                entries: vec![entry("x", u64::MAX), entry("y", 1)],
            }
        )),
        Some(Refusal::TransferSizeOverflow)
    );
    assert_eq!(
        refusal(send(
            &mut state,
            1,
            WireMessage::TransferStart {
                id: "e".to_string(),
                entries: vec![],
            }
        )),
        Some(Refusal::Manifest(ManifestError::Empty))
    );
}

#[test]
fn an_image_comes_in_step_by_step() {
    let mut state = state();
    let bytes = encode_png(1, 1, &[1, 2, 3, 4]).unwrap();
    let sha256: [u8; 32] = Sha256::digest(&bytes).into();
    assert!(matches!(
        send(&mut state, 3, image_start("i", bytes.len() as u64)).action,
        Action::BeginImage
    ));
    let piece = WireMessage::ImageChunk {
        id: "i".to_string(),
        offset: 0,
        bytes: bytes.clone(),
    };
    let end = || WireMessage::ImageEnd {
        id: "i".to_string(),
        sha256,
    };
    assert_eq!(
        refusal(send(&mut state, 4, end())),
        Some(Refusal::UnknownImage)
    );
    assert!(matches!(send(&mut state, 3, piece).action, Action::Took));
    match send(&mut state, 3, end()).action {
        Action::Apply {
            id,
            fingerprint,
            payload,
        } => {
            assert_eq!((id.as_str(), fingerprint), ("i", 5));
            assert_eq!(
                payload,
                ClipboardPayload::Image {
                    width: 1,
                    height: 1,
                    bytes
                }
            );
        }
        _ => panic!("apply expected"),
    }
    assert!(state.active_images.items.is_empty());
}

#[test]
fn each_refusal_of_an_image() {
    let mut state = state();
    assert_eq!(
        refusal(send(&mut state, 3, image_start("i", 0))),
        Some(Refusal::ImageStart(ImageError::TransferSize))
    );
    assert_eq!(
        refusal(send(&mut state, 3, image_start("i", 256 * 1024 * 1024 + 1))),
        Some(Refusal::TooManyImageBytes)
    );
    for n in 0..MAX_ACTIVE_IMAGES {
        send(&mut state, 3, image_start(&format!("{n}"), 1));
    }
    assert_eq!(
        refusal(send(&mut state, 4, image_start("i", 1))),
        Some(Refusal::TooManyImages)
    );
    assert_eq!(
        refusal(send(
            &mut state,
            3,
            WireMessage::ImageChunk {
                id: "0".to_string(),
                offset: 1,
                bytes: vec![1],
            }
        )),
        Some(Refusal::ImageChunk(ImageError::Offset))
    );
    assert_eq!(
        refusal(send(
            &mut state,
            3,
            WireMessage::ImageEnd {
                id: "1".to_string(),
                sha256: [0; 32],
            }
        )),
        Some(Refusal::ImageEnd(ImageError::SizeMismatch {
            expected: 1,
            actual: 0
        }))
    );
    assert_eq!(state.active_images.items.len(), MAX_ACTIVE_IMAGES - 2);
}

#[test]
fn what_a_device_began_goes_with_it() {
    let mut state = state();
    send(&mut state, 3, start("t", 5));
    send(&mut state, 4, start("t", 5));
    send(&mut state, 3, image_start("i", 1));
    let outcome = state.handle_incoming_event(IncomingEvent::Disconnected { peer_id: 3 }, 1);
    assert_eq!(outcome.removed, vec![directory(3, "t")]);
    assert!(state.transfer(4, "t").is_some());
    assert!(state.active_images.items.is_empty());
    assert_eq!(state.cleanup_peer_sessions(4), vec![directory(4, "t")]);
}

#[test]
fn idle_transfers_expire() {
    let mut state = state();
    send(&mut state, 3, start("t", 5));
    state.handle_incoming_event(
        IncomingEvent::Message {
            peer_id: 3,
            message: start("u", 5),
        },
        10,
    );
    let expired = state.expire_sessions(SESSION_IDLE_TIMEOUT + 5);
    assert_eq!(expired, vec![directory(3, "t")]);
    assert!(state.transfer(3, "u").is_some());
}

#[test]
fn greetings_change_nothing() {
    let mut state = state();
    assert!(matches!(
        send(&mut state, 3, WireMessage::Hello { version: 1 }).action,
        Action::Ignore
    ));
}

#[test]
fn the_latest_identifiers_are_remembered() {
    let mut seen = SeenIds::default();
    for n in 0..MAX_SEEN {
        assert!(seen.insert(&format!("{n}")));
    }
    assert!(!seen.insert("0"));
    assert!(seen.insert("new"));
    assert!(!seen.contains("0"));
    assert!(seen.contains("1"));
    assert!(seen.contains("new"));
}

#[test]
fn sessions_are_found_by_device_and_identifier() {
    let session = |peer, id: &str, last_activity| Session {
        key: SessionKey::new(peer, id.to_string()),
        last_activity,
        size: 3,
        item: (),
    };
    let mut table = SessionTable::new();
    table.push(session(1, "a", 0));
    table.push(session(2, "a", 5));
    table.push(session(2, "b", 5));
    assert_eq!(table.find(2, "a"), Some(1));
    assert_eq!(table.find(1, "b"), None);
    assert_eq!(table.total(), 9);
    assert!(table.remove(1, "a").is_some());
    assert!(table.remove(1, "a").is_none());
    assert_eq!(table.drop_matching(DropRule::Peer { peer_id: 2 }).len(), 2);
    assert_eq!(table.total(), 0);
    table.push(session(1, "a", 0));
    assert!(table
        .drop_matching(DropRule::Idle {
            now: SESSION_IDLE_TIMEOUT - 1
        })
        .is_empty());
    assert_eq!(
        table
            .drop_matching(DropRule::Idle {
                now: SESSION_IDLE_TIMEOUT
            })
            .len(),
        1
    );
}
