use clipx::capture::{capture_files, CapturedFiles, CopiedPath, FileKind, FileMeta};
use clipx::clipboard::{
    captured_fingerprint, captured_summary, payload_summary, send_payload, text_summary,
    CaptureCache, CapturedPayload, Next, Outgoing, OutgoingError, Reading,
};
use clipx::fingerprint::{fingerprint, text_fingerprint};
use clipx::image::{CapturedImage, ImageError, RawImage, MAX_IMAGE_TRANSFER_BYTES};
use clipx::paths::RelativePath;
use clipx::send::SendError;
use clipx::wire::{
    ClipboardPayload, WireMessage, FILE_CACHE_VALIDATION_INTERVAL, MAX_TRANSFER_BYTES,
};
use std::sync::Arc;

fn files(size: u64, internal: bool) -> Arc<CapturedFiles> {
    let roots = vec![CopiedPath {
        source: 0,
        name: Some(b"a".to_vec()),
    }];
    let mut capture = capture_files(&roots, internal).ok().unwrap();
    capture.next_source().unwrap();
    capture
        .capture_entry(FileMeta {
            kind: FileKind::File,
            size,
            mode: None,
            modified_nanos: 0,
        })
        .unwrap();
    Arc::new(capture.finish())
}

fn image(size: usize) -> CapturedImage {
    CapturedImage {
        fingerprint: 9,
        width: 3,
        height: 4,
        bytes: Arc::new(vec![0; size]),
    }
}

fn path(name: &str) -> RelativePath {
    RelativePath {
        components: vec![name.as_bytes().to_vec()],
    }
}

#[test]
fn clipboards_are_named_by_kind_and_size() {
    assert_eq!(text_summary("剪贴板"), "文本（9 B）");
    assert_eq!(
        payload_summary(&ClipboardPayload::Image {
            width: 3,
            height: 4,
            bytes: vec![0; 1_500],
        }),
        "图片 3x4（1.5 KB）"
    );
    assert_eq!(
        payload_summary(&ClipboardPayload::Text("a".to_string())),
        "文本（1 B）"
    );
    assert_eq!(
        captured_summary(&CapturedPayload::Text("ab".to_string())),
        "文本（2 B）"
    );
    assert_eq!(
        captured_summary(&CapturedPayload::Image(image(7))),
        "图片 3x4（7 B）"
    );
    assert_eq!(
        captured_summary(&CapturedPayload::Files(files(5, false))),
        "1 个文件、0 个目录（5 B）"
    );
}

#[test]
fn clipboards_are_known_again() {
    let text = || "hello".to_string();
    assert_eq!(
        captured_fingerprint(&CapturedPayload::Text(text())),
        fingerprint(&ClipboardPayload::Text(text()))
    );
    assert_eq!(
        captured_fingerprint(&CapturedPayload::Text(text())),
        text_fingerprint("hello")
    );
    assert_eq!(captured_fingerprint(&CapturedPayload::Image(image(7))), 9);
    let captured = files(5, false);
    assert_eq!(
        captured_fingerprint(&CapturedPayload::Files(captured.clone())),
        captured.identity
    );
}

#[test]
fn each_clipboard_is_sent_in_its_way() {
    match send_payload("m", CapturedPayload::Text("x".to_string())) {
        Ok(Outgoing::Message(message)) => assert_eq!(
            message,
            WireMessage::Clipboard {
                id: "m".to_string(),
                payload: ClipboardPayload::Text("x".to_string()),
            }
        ),
        _ => panic!("message expected"),
    }
    match send_payload("m", CapturedPayload::Image(image(7))) {
        Ok(Outgoing::Image(mut sender)) => assert_eq!(
            sender.next_message(),
            Some(WireMessage::ImageStart {
                id: "m".to_string(),
                fingerprint: 9,
                width: 3,
                height: 4,
                size: 7,
            })
        ),
        _ => panic!("image expected"),
    }
    match send_payload("m", CapturedPayload::Files(files(5, false))) {
        Ok(Outgoing::Files(mut sender, message)) => {
            assert!(matches!(message, WireMessage::TransferStart { .. }));
            assert_eq!(sender.next_source(), Some(0));
        }
        _ => panic!("files expected"),
    }
    // What was received is not sent on.
    assert!(matches!(
        send_payload("m", CapturedPayload::Files(files(5, true))),
        Ok(Outgoing::Nothing)
    ));
}

#[test]
fn each_error_of_a_clipboard_that_goes_out() {
    assert_eq!(
        send_payload(
            "m",
            CapturedPayload::Image(image(MAX_IMAGE_TRANSFER_BYTES + 1))
        )
        .err(),
        Some(OutgoingError::Image(ImageError::TransferSize))
    );
    assert_eq!(
        send_payload(
            "m",
            CapturedPayload::Files(files(MAX_TRANSFER_BYTES + 1, false))
        )
        .err(),
        Some(OutgoingError::Files(SendError::TooLarge))
    );
}

#[test]
fn captured_files_are_trusted_for_a_while() {
    let mut cache = CaptureCache::default();
    let copied = || vec![path("a"), path("b")];
    assert!(cache.cached_files(&copied(), 0).is_none());
    cache.files_captured(copied(), files(5, false), 10);
    let until = 10 + FILE_CACHE_VALIDATION_INTERVAL;
    assert!(cache.cached_files(&copied(), until - 1).is_some());
    assert!(cache.cached_files(&copied(), until).is_none());
    assert!(cache.cached_files(&vec![path("a")], 11).is_none());
    assert!(cache
        .cached_files(&vec![path("a"), path("c")], 11)
        .is_none());
    assert!(cache.without_files(None).unwrap().is_none());
    assert!(cache.cached_files(&copied(), 11).is_none());
}

#[test]
fn a_failed_capture_is_announced_once() {
    let mut cache = CaptureCache::default();
    assert!(cache.files_failed("x".to_string()));
    assert!(!cache.files_failed("x".to_string()));
    assert!(cache.files_failed("y".to_string()));
    assert_eq!(cache.without_image(None), None);
    assert_eq!(cache.without_image(Some(String::new())), None);
    assert!(!cache.files_failed("y".to_string()));
    assert_eq!(
        cache.without_image(Some("t".to_string())),
        Some("t".to_string())
    );
    assert!(cache.files_failed("y".to_string()));
}

#[test]
fn images_come_before_texts() {
    let mut cache = CaptureCache::default();
    let raw = RawImage {
        width: 1,
        height: 1,
        bytes: vec![1, 2, 3, 4],
    };
    let captured = cache.without_files(Some(raw)).unwrap().unwrap();
    assert_eq!((captured.width, captured.height), (1, 1));
    assert!(cache.image.is_some());
}

#[test]
fn files_come_before_images_before_texts() {
    let mut cache = CaptureCache::default();
    let copied = || vec![path("a")];
    let step = |cache: &mut CaptureCache, reading| cache.capture_payload(reading, 10);
    assert!(matches!(
        step(&mut cache, Reading::Paths(None)),
        Next::ReadImage { announce: false }
    ));
    assert!(matches!(
        step(&mut cache, Reading::Paths(Some(vec![]))),
        Next::ReadImage { announce: false }
    ));
    match step(&mut cache, Reading::Paths(Some(copied()))) {
        Next::CaptureFiles(paths) => assert_eq!(paths, copied()),
        _ => panic!("files expected"),
    }
    let failed = || Reading::NoFiles {
        message: "gone".to_string(),
    };
    assert!(matches!(
        step(&mut cache, failed()),
        Next::ReadImage { announce: true }
    ));
    assert!(matches!(
        step(&mut cache, failed()),
        Next::ReadImage { announce: false }
    ));
    assert!(matches!(
        step(
            &mut cache,
            Reading::Files {
                paths: copied(),
                files: files(5, false),
            }
        ),
        Next::Captured(CapturedPayload::Files(_))
    ));
    assert!(matches!(
        step(&mut cache, Reading::Paths(Some(copied()))),
        Next::Captured(CapturedPayload::Files(_))
    ));
    let raw = |size| {
        Reading::Image(Some(RawImage {
            width: 1,
            height: 1,
            bytes: vec![0; size],
        }))
    };
    assert!(matches!(
        step(&mut cache, raw(4)),
        Next::Captured(CapturedPayload::Image(_))
    ));
    assert!(matches!(
        step(&mut cache, raw(3)),
        Next::Refused(ImageError::PixelCount)
    ));
    assert!(matches!(
        step(&mut cache, Reading::Image(None)),
        Next::ReadText
    ));
    assert!(cache.files.is_none());
    assert!(matches!(
        step(&mut cache, Reading::Text(Some("t".to_string()))),
        Next::Captured(CapturedPayload::Text(_))
    ));
    assert!(matches!(
        step(&mut cache, Reading::Text(Some(String::new()))),
        Next::Empty
    ));
}
