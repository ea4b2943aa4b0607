use clipx::transport::{
    connect_outcome, connect_step, encode_message, frame_header, frame_length, hello, read_frame,
    reader_step, write_frame, CloseReason, ConnectAction, ConnectControl, ConnectStage, FrameError,
    FrameReader, PeerHub, ReaderAction, ReaderInput, TargetError, RETRY_STEPS,
};
use clipx::wire::{ClipboardPayload, WireMessage, FRAME_LIMIT, MAX_PEERS, PROTOCOL_VERSION};

#[test]
fn frame_round_trip_preserves_bytes() {
    let mut encoded = Vec::new();
    write_frame(&mut encoded, b"hello clipx").unwrap();
    assert_eq!(
        read_frame(&mut FrameReader::new(encoded)).unwrap(),
        Some(b"hello clipx".to_vec())
    );
}

#[test]
fn frame_limits_reject_invalid_sizes() {
    let mut encoded = Vec::new();
    assert!(write_frame(&mut encoded, &[]).is_err());
    encoded.extend_from_slice(&((FRAME_LIMIT as u32) + 1).to_be_bytes());
    assert!(read_frame(&mut FrameReader::new(encoded)).is_err());
}

#[test]
fn connect_control_can_pause_and_resume_without_shutdown() {
    let mut control = ConnectControl::default();
    assert!(control.is_enabled());
    control.pause();
    assert!(!control.is_enabled());
    control.resume();
    assert!(control.is_enabled());
}

#[test]
fn frames_follow_each_other() {
    let mut bytes = Vec::new();
    write_frame(&mut bytes, b"a").unwrap();
    write_frame(&mut bytes, &vec![7; FRAME_LIMIT]).unwrap();
    assert_eq!(
        write_frame(&mut bytes, &vec![7; FRAME_LIMIT + 1]),
        Err(FrameError::InvalidSize)
    );
    write_frame(&mut bytes, b"bc").unwrap();
    assert_eq!(&bytes[..5], &[0, 0, 0, 1, b'a']);
    let mut reader = FrameReader::new(bytes);
    assert_eq!(read_frame(&mut reader).unwrap(), Some(b"a".to_vec()));
    assert_eq!(
        read_frame(&mut reader).unwrap(),
        Some(vec![7; FRAME_LIMIT])
    );
    assert_eq!(read_frame(&mut reader).unwrap(), Some(b"bc".to_vec()));
    assert_eq!(read_frame(&mut reader).unwrap(), None);
}

#[test]
fn broken_frames_are_told_apart() {
    assert_eq!(
        read_frame(&mut FrameReader::new(vec![0, 0, 1])).unwrap(),
        None
    );
    assert_eq!(
        read_frame(&mut FrameReader::new(vec![0, 0, 0, 2, 1])),
        Err(FrameError::Truncated)
    );
    let mut reader = FrameReader::new(vec![0, 0, 0, 0, 0, 0, 0, 1, 9, 0]);
    assert_eq!(read_frame(&mut reader), Err(FrameError::InvalidSize));
    assert_eq!(read_frame(&mut reader), Ok(Some(vec![9])));
    assert_eq!(read_frame(&mut reader), Ok(None));
    assert_eq!(frame_header(b"xyz"), Ok([0, 0, 0, 3]));
    assert_eq!(frame_header(b""), Err(FrameError::InvalidSize));
    assert_eq!(frame_length([0, 0x40, 0, 0]), Ok(FRAME_LIMIT));
    assert_eq!(frame_length([0, 0x40, 0, 1]), Err(FrameError::InvalidSize));
    assert_eq!(encode_message(vec![1, 2]), Ok(vec![1, 2]));
    assert_eq!(encode_message(vec![]), Err(FrameError::InvalidSize));
    assert_eq!(
        encode_message(vec![0; FRAME_LIMIT + 1]),
        Err(FrameError::InvalidSize)
    );
}

#[test]
fn nothing_is_delivered_before_the_greeting() {
    let text = || WireMessage::Clipboard {
        id: "1".to_string(),
        payload: ClipboardPayload::Text("x".to_string()),
    };
    assert!(matches!(
        reader_step(false, ReaderInput::Message(text())),
        ReaderAction::Close(CloseReason::NoHandshake)
    ));
    assert!(matches!(
        reader_step(false, ReaderInput::Message(hello())),
        ReaderAction::Register
    ));
    assert!(matches!(
        reader_step(
            false,
            ReaderInput::Message(WireMessage::Hello {
                version: PROTOCOL_VERSION + 1
            })
        ),
        ReaderAction::Close(CloseReason::Version { theirs: 2 })
    ));
    assert!(matches!(
        reader_step(true, ReaderInput::Message(hello())),
        ReaderAction::Close(CloseReason::RepeatedHello)
    ));
    match reader_step(true, ReaderInput::Message(text())) {
        ReaderAction::Deliver(message) => assert_eq!(message, text()),
        _ => panic!("delivery expected"),
    }
    assert!(matches!(
        reader_step(true, ReaderInput::Invalid),
        ReaderAction::Close(CloseReason::InvalidMessage)
    ));
    assert!(matches!(
        reader_step(true, ReaderInput::Ended),
        ReaderAction::Close(CloseReason::Ended)
    ));
    assert!(matches!(
        reader_step(false, ReaderInput::TimedOut),
        ReaderAction::Close(CloseReason::HandshakeTimeout)
    ));
    assert!(matches!(
        reader_step(false, ReaderInput::Failed),
        ReaderAction::Close(CloseReason::ReadFailed)
    ));
}

#[test]
fn a_paused_search_does_not_connect() {
    let mut stage = ConnectStage::Connected;
    for _ in 0..100 {
        let (next, action) = connect_step(stage, false, false, false);
        assert_ne!(action, ConnectAction::Connect);
        stage = next;
    }
    assert_eq!(stage, ConnectStage::Ready);
    assert_eq!(
        connect_step(stage, false, true, false),
        (ConnectStage::Ready, ConnectAction::Connect)
    );
    assert_eq!(
        connect_step(stage, true, true, false).1,
        ConnectAction::Stop
    );
}

#[test]
fn a_failed_search_waits_before_the_next_attempt() {
    let (mut stage, disconnect) = connect_outcome(false, true);
    assert_eq!(disconnect, false);
    let mut slept = 0;
    loop {
        let (next, action) = connect_step(stage, false, true, false);
        stage = next;
        match action {
            ConnectAction::Sleep { millis } => slept += millis,
            ConnectAction::Again => {}
            ConnectAction::Connect => break,
            _ => panic!("unexpected action"),
        }
    }
    assert_eq!(slept, 100 * RETRY_STEPS as u64);
    assert_eq!(connect_outcome(true, false), (ConnectStage::Connected, true));
    assert_eq!(
        connect_step(ConnectStage::Connected, false, true, true),
        (ConnectStage::Connected, ConnectAction::Sleep { millis: 250 })
    );
    assert_eq!(
        connect_step(ConnectStage::Connected, false, true, false).1,
        ConnectAction::Closed
    );
}

#[test]
fn devices_come_and_go() {
    let mut hub = PeerHub::default();
    assert!(!hub.is_shutdown());
    for id in 1..=(MAX_PEERS as u64) {
        assert!(hub.add(id, format!("10.0.0.{id}:1"), true));
    }
    assert!(!hub.add(99, "x".to_string(), true));
    hub.mark_closed(2);
    assert!(!hub.is_alive(2));
    assert!(hub.is_alive(3));
    assert!(!hub.add(98, "x".to_string(), false));
    assert!(hub.add(99, "late".to_string(), true));
    hub.remove(1);
    let ids = hub.active_peer_ids();
    assert_eq!(ids.len(), MAX_PEERS - 1);
    assert_eq!(ids[0], 3);
    assert_eq!(*ids.last().unwrap(), 99);
    assert_eq!(hub.active_peer_addresses().last().unwrap(), "late");
    hub.shutdown();
    assert!(hub.is_shutdown());
    assert!(hub.active_peer_ids().is_empty());
}

#[test]
fn messages_name_the_last_device_they_did_not_reach() {
    let mut hub = PeerHub::default();
    for id in [1, 2, 3] {
        hub.add(id, String::new(), true);
    }
    assert_eq!(hub.check_targets(&vec![]), Err(TargetError::NoPeers));
    assert_eq!(hub.check_targets(&vec![1, 4]), Err(TargetError::Gone));
    assert_eq!(hub.check_targets(&vec![3, 1]), Ok(()));
    assert_eq!(
        hub.send_to_targets(&vec![1, 3], &vec![true, true]),
        Ok(())
    );
    assert_eq!(
        hub.send_to_targets(&vec![1, 2, 3], &vec![false, false, true]),
        Err(TargetError::Closed { peer_id: 2 })
    );
    assert_eq!(hub.active_peer_ids(), vec![3]);
}
