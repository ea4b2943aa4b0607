use clipx::fingerprint::image_payload_fingerprint;
use clipx::image::{
    apply_image, capture_image, check_header, decode_png, encode_png, take_pixels, CapturedImage,
    ImageError, ImageSender, IncomingImage, RawImage, MAX_IMAGE_BYTES, MAX_IMAGE_TRANSFER_BYTES,
};
use clipx::wire::{ClipboardPayload, WireMessage, CHUNK_SIZE, FRAME_LIMIT};
use sha2::{Digest, Sha256};
use std::sync::Arc;

#[test]
fn png_round_trip_preserves_pixels() {
    let pixels = [
        255, 0, 0, 255, // red
        0, 255, 0, 255, // green
    ];
    let encoded = encode_png(2, 1, &pixels).unwrap();
    assert_eq!(&encoded[..8], b"\x89PNG\r\n\x1a\n");
    let (width, height, decoded) = decode_png(&encoded).unwrap();
    assert_eq!((width, height), (2, 1));
    assert_eq!(decoded, pixels);
}

#[test]
fn large_png_uses_chunked_image_transfer() {
    let width = 1_200;
    let height = 1_200;
    let mut pixels = Vec::with_capacity(width * height * 4);
    let mut value = 0x1234_5678u32;
    for _ in 0..(width * height) {
        value = value.wrapping_mul(1_664_525).wrapping_add(1_013_904_223);
        pixels.extend_from_slice(&value.to_le_bytes());
    }
    let encoded = encode_png(width as u32, height as u32, &pixels).unwrap();
    assert!(encoded.len() > FRAME_LIMIT);

    let fingerprint = image_payload_fingerprint(width as u32, height as u32, &encoded);
    let mut incoming = IncomingImage::start(
        fingerprint,
        width as u32,
        height as u32,
        encoded.len() as u64,
    )
    .unwrap();
    for (offset, chunk) in encoded.chunks(CHUNK_SIZE).enumerate() {
        incoming
            .accept_chunk((offset * CHUNK_SIZE) as u64, chunk)
            .unwrap();
    }
    let sha256: [u8; 32] = Sha256::digest(&encoded).into();
    let (received_fingerprint, payload) = incoming.finish(sha256).unwrap();
    assert_eq!(received_fingerprint, fingerprint);
    match payload {
        ClipboardPayload::Image {
            width: received_width,
            height: received_height,
            bytes,
        } => {
            assert_eq!(
                (received_width, received_height),
                (width as u32, height as u32)
            );
            assert_eq!(bytes, encoded);
        }
        ClipboardPayload::Text(_) => panic!("图片传输返回了文本"),
    }
}

#[test]
fn what_is_sent_arrives() {
    let bytes = encode_png(700, 700, &vec![0x5a; 700 * 700 * 4]).unwrap();
    let image = CapturedImage {
        fingerprint: 42,
        width: 700,
        height: 700,
        bytes: Arc::new(bytes.clone()),
    };
    let mut sender = ImageSender::send_image_transfer("id", &image).unwrap();
    let mut incoming = None;
    let mut finished = None;
    while let Some(message) = sender.next_message() {
        match message {
            WireMessage::ImageStart {
                id,
                fingerprint,
                width,
                height,
                size,
            } => {
                assert_eq!(id, "id");
                incoming = Some(IncomingImage::start(fingerprint, width, height, size).unwrap());
            }
            WireMessage::ImageChunk { offset, bytes, .. } => {
                incoming
                    .as_mut()
                    .unwrap()
                    .accept_chunk(offset, &bytes)
                    .unwrap();
            }
            WireMessage::ImageEnd { sha256, .. } => {
                finished = Some(incoming.take().unwrap().finish(sha256).unwrap());
            }
            _ => panic!("unexpected message"),
        }
    }
    let (fingerprint, payload) = finished.unwrap();
    assert_eq!(fingerprint, 42);
    assert_eq!(
        payload,
        ClipboardPayload::Image {
            width: 700,
            height: 700,
            bytes
        }
    );
    assert!(sender.next_message().is_none());
}

#[test]
fn chunks_of_more_than_one_are_numbered_by_offset() {
    let image = CapturedImage {
        fingerprint: 1,
        width: 1,
        height: 1,
        bytes: Arc::new(vec![3; CHUNK_SIZE * 2 + 5]),
    };
    let mut sender = ImageSender::send_image_transfer("x", &image).unwrap();
    let mut sizes = Vec::new();
    while let Some(message) = sender.next_message() {
        if let WireMessage::ImageChunk { offset, bytes, .. } = message {
            sizes.push((offset, bytes.len()));
        }
    }
    assert_eq!(
        sizes,
        vec![
            (0, CHUNK_SIZE),
            (CHUNK_SIZE as u64, CHUNK_SIZE),
            (2 * CHUNK_SIZE as u64, 5)
        ]
    );
}

#[test]
fn each_error_of_encoding() {
    assert_eq!(encode_png(0, 0, &[]), Err(ImageError::Encode));
    assert_eq!(encode_png(1, 1, &[1, 2, 3]), Err(ImageError::PixelCount));
    assert_eq!(
        encode_png(u32::MAX, u32::MAX, &[]),
        Err(ImageError::Dimensions)
    );
    let too_many = vec![0; MAX_IMAGE_BYTES + 4];
    assert_eq!(
        encode_png((MAX_IMAGE_BYTES / 4 + 1) as u32, 1, &too_many),
        Err(ImageError::TooManyPixels)
    );
}

#[test]
fn the_widest_image_that_is_accepted_round_trips() {
    let pixels = vec![9; MAX_IMAGE_BYTES];
    let width = (MAX_IMAGE_BYTES / 4) as u32;
    let file = encode_png(width, 1, &pixels).unwrap();
    let (decoded_width, decoded_height, decoded) = decode_png(&file).unwrap();
    assert_eq!((decoded_width, decoded_height), (width, 1));
    assert!(decoded == pixels);
}

#[test]
fn each_error_of_decoding() {
    assert_eq!(decode_png(b"not a png"), Err(ImageError::Header));
    let mut broken = encode_png(4, 4, &[1; 64]).unwrap();
    let length = broken.len();
    broken.truncate(length - 20);
    assert_eq!(decode_png(&broken), Err(ImageError::Decode));
    assert_eq!(check_header(None), Err(ImageError::Header));
    assert_eq!(check_header(Some((1, 1, 2, 8, 3))), Err(ImageError::NotRgba));
    assert_eq!(
        check_header(Some((1, 1, 6, 16, 8))),
        Err(ImageError::NotRgba)
    );
    assert_eq!(
        check_header(Some((u32::MAX, u32::MAX, 6, 8, 0))),
        Err(ImageError::Dimensions)
    );
    assert_eq!(
        check_header(Some((65_536, 65_536, 6, 8, 0))),
        Err(ImageError::TooManyPixels)
    );
    assert_eq!(check_header(Some((3, 2, 6, 8, 24))), Ok((3, 2)));
    assert_eq!(take_pixels(1, 1, None), Err(ImageError::Decode));
    assert_eq!(
        take_pixels(1, 1, Some((vec![1; 8], 8))),
        Err(ImageError::PixelCount)
    );
    assert_eq!(
        take_pixels(1, 1, Some((vec![1, 2, 3, 4, 5], 4))),
        Ok((1, 1, vec![1, 2, 3, 4]))
    );
}

#[test]
fn a_grey_png_is_refused() {
    let mut file = Vec::new();
    {
        let mut encoder = png::Encoder::new(&mut file, 2, 2);
        encoder.set_color(png::ColorType::Grayscale);
        encoder.set_depth(png::BitDepth::Eight);
        let mut writer = encoder.write_header().unwrap();
        writer.write_image_data(&[0, 1, 2, 3]).unwrap();
    }
    assert_eq!(decode_png(&file), Err(ImageError::NotRgba));
}

#[test]
fn each_error_of_an_incoming_image() {
    assert_eq!(
        IncomingImage::start(1, 0, 1, 1).err(),
        Some(ImageError::Empty)
    );
    assert_eq!(
        IncomingImage::start(1, 1, 0, 1).err(),
        Some(ImageError::Empty)
    );
    assert_eq!(
        IncomingImage::start(1, 1, 1, 0).err(),
        Some(ImageError::TransferSize)
    );
    assert_eq!(
        IncomingImage::start(1, 1, 1, MAX_IMAGE_TRANSFER_BYTES as u64 + 1).err(),
        Some(ImageError::TransferSize)
    );
    let mut image = IncomingImage::start(1, 1, 1, 4).unwrap();
    assert_eq!(image.accept_chunk(0, &[]), Err(ImageError::ChunkSize));
    assert_eq!(
        image.accept_chunk(0, &vec![0; CHUNK_SIZE + 1]),
        Err(ImageError::ChunkSize)
    );
    assert_eq!(image.accept_chunk(1, &[1]), Err(ImageError::Offset));
    assert_eq!(image.accept_chunk(0, &[1; 5]), Err(ImageError::TooLong));
    assert_eq!(image.accept_chunk(0, &[1; 3]), Ok(()));
    assert_eq!(
        image.check_end([0; 32]),
        Some(ImageError::SizeMismatch {
            expected: 4,
            actual: 3
        })
    );
    assert_eq!(image.accept_chunk(3, &[1]), Ok(()));
    assert_eq!(image.check_end([0; 32]), Some(ImageError::DigestMismatch));
    let digest: [u8; 32] = Sha256::digest([1, 1, 1, 1]).into();
    assert_eq!(image.check_end(digest), None);
    assert_eq!(image.finish(digest), Err(ImageError::Header));
}

#[test]
fn an_image_of_another_size_is_refused() {
    let file = encode_png(2, 1, &[0; 8]).unwrap();
    let digest: [u8; 32] = Sha256::digest(&file).into();
    let mut image = IncomingImage::start(1, 1, 2, file.len() as u64).unwrap();
    image.accept_chunk(0, &file).unwrap();
    assert_eq!(image.finish(digest), Err(ImageError::DimensionMismatch));
    assert_eq!(apply_image(2, 1, &file), Ok(vec![0; 8]));
    assert_eq!(
        apply_image(1, 2, &file),
        Err(ImageError::DimensionMismatch)
    );
    let image = IncomingImage::start(7, 2, 1, 1).unwrap();
    assert_eq!(
        image.accept_decoded(Err(ImageError::Decode)),
        Err(ImageError::Decode)
    );
}

#[test]
fn an_image_is_encoded_once() {
    let raw = |byte: u8| {
        Some(RawImage {
            width: 2,
            height: 2,
            bytes: vec![byte; 16],
        })
    };
    let mut cache = None;
    let first = capture_image(raw(1), &mut cache).unwrap().unwrap();
    assert_eq!(first.summary(), format!("图片 2x2（{} B）", first.bytes.len()));
    assert_eq!(
        first.fingerprint(),
        image_payload_fingerprint(2, 2, &first.bytes)
    );
    let again = capture_image(raw(1), &mut cache).unwrap().unwrap();
    assert!(Arc::ptr_eq(&first.bytes, &again.bytes));
    let other = capture_image(raw(2), &mut cache).unwrap().unwrap();
    assert_ne!(other.fingerprint(), first.fingerprint());
    assert!(matches!(
        capture_image(
            Some(RawImage {
                width: 2,
                height: 2,
                bytes: vec![]
            }),
            &mut cache
        ),
        Err(ImageError::PixelCount)
    ));
    assert!(cache.is_some());
    assert!(matches!(
        capture_image(
            Some(RawImage {
                width: usize::MAX,
                height: 1,
                bytes: vec![]
            }),
            &mut cache
        ),
        Err(ImageError::Dimensions)
    ));
    assert!(capture_image(None, &mut cache).unwrap().is_none());
    assert!(cache.is_none());
    let large = CapturedImage {
        fingerprint: 0,
        width: 1,
        height: 1,
        bytes: Arc::new(vec![0; MAX_IMAGE_TRANSFER_BYTES + 1]),
    };
    assert_eq!(
        ImageSender::send_image_transfer("x", &large).err(),
        Some(ImageError::TransferSize)
    );
}
