//! What becomes of an image.

use vstd::prelude::*;

use crate::digest::sha256;
use crate::endian::{be_bytes, be_value};
use crate::fingerprint::image_hash;
use crate::image::{
    captures, decoded, encode_fault, pixel_bytes, png_frame, png_header, start_fault, CachedImage,
    CapturedImage, ImageError, ImageView, RawImage,
};
use crate::wire::PayloadView;

verus! {

/// What an image is hashed by: its width, its height and all its bytes.
pub open spec fn image_key(width: u32, height: u32, bytes: Seq<u8>) -> Seq<u8> {
    be_bytes(width) + be_bytes(height) + bytes
}

/// Images of different sizes or different bytes are hashed by different keys; no byte is
/// left out.
pub proof fn law_key_holds_all(
    width: u32,
    height: u32,
    bytes: Seq<u8>,
    other_width: u32,
    other_height: u32,
    other: Seq<u8>,
)
    requires
        image_key(width, height, bytes) == image_key(other_width, other_height, other),
    ensures
        width == other_width,
        height == other_height,
        bytes == other,
{
    let a = image_key(width, height, bytes);
    let b = image_key(other_width, other_height, other);
    assert(a.take(4) == be_bytes(width));
    assert(b.take(4) == be_bytes(other_width));
    assert(a.subrange(4, 8) == be_bytes(height));
    assert(b.subrange(4, 8) == be_bytes(other_height));
    assert(a.skip(8) == bytes);
    assert(b.skip(8) == other);
    crate::endian::law_be_round_trip(width);
    crate::endian::law_be_round_trip(other_width);
    crate::endian::law_be_round_trip(height);
    crate::endian::law_be_round_trip(other_height);
}

/// The fingerprint of an image is the number that the digest of its whole key begins with.
pub proof fn law_fingerprint_is_of_the_whole_image(width: u32, height: u32, bytes: Seq<u8>)
    ensures
        image_hash(width, height, bytes) == be_value(
            sha256(image_key(width, height, bytes)).take(8),
        ),
{
}

/// Whether a captured image is that of these pixels.
pub open spec fn shows(image: CapturedImage, width: u32, height: u32, pixels: Seq<u8>) -> bool {
    decoded(png_header(image.bytes@), png_frame(image.bytes@)) == Ok::<
        (u32, u32, Seq<u8>),
        ImageError,
    >((width, height, pixels)) && image.width == width && image.height == height
}

/// Whether what is remembered is an image of these pixels, under the fingerprint of its
/// size and all of them.
pub open spec fn remembers(
    cache: Option<CachedImage>,
    width: u32,
    height: u32,
    pixels: Seq<u8>,
) -> bool {
    cache matches Some(cached) && shows(cached.image, width, height, pixels)
        && cached.raw_fingerprint == be_value(sha256(image_key(width, height, pixels)).take(8))
}

/// Whether what is remembered, if anything, is an image under its fingerprint.
pub open spec fn is_sound(cache: Option<CachedImage>) -> bool {
    cache is None || exists|width: u32, height: u32, pixels: Seq<u8>| #[trigger]
        remembers(cache, width, height, pixels)
}

/// A capture gives the image that is on the clipboard. From a memory that holds nothing, or
/// an image under its fingerprint, every capture leads to such a memory again; and what
/// was captured decodes to exactly the size and the pixels on the clipboard, or it is the
/// image remembered, and the digests of both whole images begin alike.
pub proof fn law_capture_gives_the_image(
    image: RawImage,
    before: Option<CachedImage>,
    captured: CapturedImage,
    after: Option<CachedImage>,
)
    requires
        is_sound(before),
        captures(image, before, Ok(Some(captured)), after),
    ensures
        is_sound(after),
        image.width <= u32::MAX,
        image.height <= u32::MAX,
        ({
            let width = image.width as u32;
            let height = image.height as u32;
            ||| shows(captured, width, height, image.bytes@) && remembers(
                after,
                width,
                height,
                image.bytes@,
            )
            ||| exists|w: u32, h: u32, pixels: Seq<u8>| #[trigger]
                remembers(before, w, h, pixels) && captured == before->0.image && after == before
                    && be_value(sha256(image_key(w, h, pixels)).take(8)) == be_value(
                    sha256(image_key(width, height, image.bytes@)).take(8),
                )
        }),
{
    let width = image.width as u32;
    let height = image.height as u32;
    if !(shows(captured, width, height, image.bytes@) && remembers(
        after,
        width,
        height,
        image.bytes@,
    )) {
        let (w, h, pixels) = choose|w: u32, h: u32, pixels: Seq<u8>| #[trigger]
            remembers(before, w, h, pixels);
        assert(remembers(before, w, h, pixels));
    }
}

/// A capture that fails leaves the memory as it was, and an image that can be sent does not
/// fail: one with a width and a height, four bytes for each pixel, and no more than the
/// limit of them.
pub proof fn law_images_are_captured(
    image: RawImage,
    before: Option<CachedImage>,
    r: Result<Option<CapturedImage>, ImageError>,
    after: Option<CachedImage>,
)
    requires
        captures(image, before, r, after),
    ensures
        r is Err ==> after == before,
        0 < image.width <= u32::MAX && 0 < image.height <= u32::MAX && image.bytes@.len()
            == image.width * image.height * 4 && image.bytes@.len() <= 64 * 1024 * 1024
            ==> r matches Ok(Some(_)),
{
}

/// Captures that follow one another: each image with what was remembered before it, what came
/// of it, and what is remembered after it; in the beginning nothing is.
pub open spec fn is_run(
    images: Seq<RawImage>,
    results: Seq<Result<Option<CapturedImage>, ImageError>>,
    memory: Seq<Option<CachedImage>>,
) -> bool {
    &&& results.len() == images.len()
    &&& memory.len() == images.len() + 1
    &&& memory[0] is None
    &&& forall|i: int|
        0 <= i < images.len() ==> captures(
            #[trigger] images[i],
            memory[i],
            results[i],
            memory[i + 1],
        )
}

proof fn lemma_sound(
    images: Seq<RawImage>,
    results: Seq<Result<Option<CapturedImage>, ImageError>>,
    memory: Seq<Option<CachedImage>>,
    i: int,
)
    requires
        is_run(images, results, memory),
        0 <= i <= images.len(),
    ensures
        is_sound(memory[i]),
    decreases i,
{
    if i > 0 {
        lemma_sound(images, results, memory, i - 1);
        let image = images[i - 1];
        assert(captures(image, memory[i - 1], results[i - 1], memory[i]));
        match results[i - 1] {
            Ok(Some(captured)) => {
                law_capture_gives_the_image(image, memory[i - 1], captured, memory[i]);
            },
            _ => {
                assert(memory[i] == memory[i - 1]);
            },
        }
    }
}

/// However many images were captured before, an image that is captured decodes to exactly
/// the size and the pixels on the clipboard; or it is one captured before, and the digests
/// of both whole images begin alike.
pub proof fn law_every_capture_gives_the_image(
    images: Seq<RawImage>,
    results: Seq<Result<Option<CapturedImage>, ImageError>>,
    memory: Seq<Option<CachedImage>>,
    i: int,
    captured: CapturedImage,
)
    requires
        is_run(images, results, memory),
        0 <= i < images.len(),
        results[i] == Ok::<Option<CapturedImage>, ImageError>(Some(captured)),
    ensures
        ({
            let width = images[i].width as u32;
            let height = images[i].height as u32;
            let pixels = images[i].bytes@;
            ||| shows(captured, width, height, pixels)
            ||| exists|w: u32, h: u32, p: Seq<u8>| #[trigger]
                shows(captured, w, h, p) && be_value(sha256(image_key(w, h, p)).take(8))
                    == be_value(sha256(image_key(width, height, pixels)).take(8))
        }),
{
    lemma_sound(images, results, memory, i);
    assert(captures(images[i], memory[i], results[i], memory[i + 1]));
    law_capture_gives_the_image(images[i], memory[i], captured, memory[i + 1]);
    let width = images[i].width as u32;
    let height = images[i].height as u32;
    let pixels = images[i].bytes@;
    if !shows(captured, width, height, pixels) {
        let (w, h, p) = choose|w: u32, h: u32, p: Seq<u8>| #[trigger]
            remembers(memory[i], w, h, p) && captured == memory[i]->0.image && be_value(
                sha256(image_key(w, h, p)).take(8),
            ) == be_value(sha256(image_key(width, height, pixels)).take(8));
        assert(shows(captured, w, h, p));
    }
}

/// A captured image goes by the fingerprint of its size and all the bytes of its file.
pub proof fn law_captured_image_is_fingerprinted(image: CapturedImage)
    requires
        image.wf(),
    ensures
        image.fingerprint == be_value(
            sha256(image_key(image.width, image.height, image.bytes@)).take(8),
        ),
{
}

/// What cannot be encoded: an image that does not have four bytes for each pixel, one of more
/// than sixty-four mebibytes, and one without a width or a height.
pub proof fn law_images_that_can_be_encoded(width: u32, height: u32, rgba: Seq<u8>)
    ensures
        encode_fault(width, height, rgba) is None <==> width > 0 && height > 0 && rgba.len()
            == width * height * 4 && rgba.len() <= 67_108_864,
        width * height * 4 <= usize::MAX && rgba.len() != width * height * 4 ==> encode_fault(
            width,
            height,
            rgba,
        ) == Some(ImageError::PixelCount),
        width * height * 4 <= usize::MAX && rgba.len() == width * height * 4 && rgba.len()
            > 67_108_864 ==> encode_fault(width, height, rgba) == Some(ImageError::TooManyPixels),
        rgba.len() == width * height * 4 && (width == 0 || height == 0) ==> encode_fault(
            width,
            height,
            rgba,
        ) == Some(ImageError::Encode),
        width * height * 4 > usize::MAX ==> encode_fault(width, height, rgba) == Some(
            ImageError::Dimensions,
        ),
{
    assert(width == 0 || height == 0 ==> width * height * 4 == 0) by (nonlinear_arith);
    assert(pixel_bytes(width, height) == width * height * 4);
}

/// An image is read if it is of eight bits each of red, green, blue and alpha, no larger than
/// sixty-four mebibytes, and the frame fills exactly its pixels; then those are what is
/// read, and nothing else of the frame.
pub proof fn law_images_that_can_be_read(
    width: u32,
    height: u32,
    color: u8,
    depth: u8,
    size: usize,
    pixels: Seq<u8>,
    filled: usize,
)
    ensures
        ({
            let header = Some((width, height, color, depth, size));
            let read = decoded(header, Some((pixels, filled)));
            &&& color == 6 && depth == 8 && width * height * 4 <= 67_108_864 && size <= 67_108_864
                && filled == width * height * 4 && filled <= pixels.len() ==> read == Ok::<
                (u32, u32, Seq<u8>),
                ImageError,
            >((width, height, pixels.take(filled as int)))
            &&& color == 6 && depth == 8 && width * height * 4 <= 67_108_864 && size <= 67_108_864
                && filled == width * height * 4 && filled > pixels.len() ==> read == Ok::<
                (u32, u32, Seq<u8>),
                ImageError,
            >((width, height, pixels))
            &&& color != 6 || depth != 8 ==> read == Err::<(u32, u32, Seq<u8>), ImageError>(
                ImageError::NotRgba,
            )
            &&& color == 6 && depth == 8 && width * height * 4 <= usize::MAX && (width * height * 4
                > 67_108_864 || size > 67_108_864) ==> read == Err::<
                (u32, u32, Seq<u8>),
                ImageError,
            >(ImageError::TooManyPixels)
            &&& color == 6 && depth == 8 && width * height * 4 > usize::MAX ==> read == Err::<
                (u32, u32, Seq<u8>),
                ImageError,
            >(ImageError::Dimensions)
            &&& color == 6 && depth == 8 && width * height * 4 <= 67_108_864 && size <= 67_108_864
                && filled != width * height * 4 ==> read == Err::<
                (u32, u32, Seq<u8>),
                ImageError,
            >(ImageError::PixelCount)
            &&& color == 6 && depth == 8 && width * height * 4 <= 67_108_864 && size <= 67_108_864
                ==> decoded(header, None) == Err::<(u32, u32, Seq<u8>), ImageError>(
                ImageError::Decode,
            )
        }),
        decoded(None, Some((pixels, filled))) == Err::<(u32, u32, Seq<u8>), ImageError>(
            ImageError::Header,
        ),
{
    assert(pixel_bytes(width, height) == width * height * 4);
}

/// What is wrong with a piece of an image is told in this order: its length, where it belongs,
/// and that it is longer than what is missing.
pub proof fn law_wrong_pieces_are_told(image: ImageView, offset: u64, bytes: Seq<u8>)
    ensures
        ({
            let sized = 1 <= bytes.len() <= 1_048_576;
            let fault = image.chunk_fault(offset, bytes);
            &&& !sized ==> fault == Some(ImageError::ChunkSize)
            &&& sized && offset != image.received.len() ==> fault == Some(ImageError::Offset)
            &&& sized && offset == image.received.len() && image.received.len() + bytes.len()
                > image.expected ==> fault == Some(ImageError::TooLong)
            &&& sized && offset == image.received.len() && image.received.len() + bytes.len()
                <= image.expected ==> fault is None
        }),
        image.with_chunk(bytes).received == image.received + bytes,
        image.with_chunk(bytes).fingerprint == image.fingerprint,
        image.with_chunk(bytes).width == image.width,
        image.with_chunk(bytes).height == image.height,
        image.with_chunk(bytes).expected == image.expected,
{
}

/// What is wrong with an image that ends is told in this order: that it is not whole, that its
/// digest is another, that it cannot be read, and that its size is another.
pub proof fn law_wrong_images_are_told(image: ImageView, digest: Seq<u8>)
    requires
        image.expected <= u64::MAX,
        image.received.len() <= u64::MAX,
    ensures
        ({
            let read = decoded(png_header(image.received), png_frame(image.received));
            let fault = image.finish_fault(digest);
            let whole = image.received.len() == image.expected;
            let same = sha256(image.received) == digest;
            &&& !whole ==> (fault matches Some(ImageError::SizeMismatch { expected, actual })
                && expected == image.expected && actual == image.received.len())
            &&& whole && !same ==> fault == Some(ImageError::DigestMismatch)
            &&& whole && same && read is Err ==> fault == Some(read->Err_0)
            &&& whole && same && read is Ok && (read->Ok_0.0 != image.width || read->Ok_0.1
                != image.height) ==> fault == Some(ImageError::DimensionMismatch)
            &&& whole && same && read is Ok && read->Ok_0.0 == image.width && read->Ok_0.1
                == image.height ==> fault is None
            &&& !(whole && same) ==> image.end_fault(digest) == fault
            &&& whole && same ==> image.end_fault(digest) is None && image.decode_fault(read)
                == fault
        }),
        image.payload() == (PayloadView::Image {
            width: image.width,
            height: image.height,
            bytes: image.received,
        }),
{
}

/// An image may begin if it has a width, a height, and between one byte and sixty-four
/// mebibytes.
pub proof fn law_images_that_may_begin(fingerprint: u64, width: u32, height: u32, size: u64)
    ensures
        width == 0 || height == 0 ==> start_fault(width, height, size) == Some(ImageError::Empty),
        width > 0 && height > 0 && !(1 <= size <= 67_108_864) ==> start_fault(width, height, size)
            == Some(ImageError::TransferSize),
        width > 0 && height > 0 && 1 <= size <= 67_108_864 ==> start_fault(width, height, size)
            is None,
        ImageView::started(fingerprint, width, height, size) == (ImageView {
            fingerprint,
            width,
            height,
            expected: size as nat,
            received: Seq::<u8>::empty(),
        }),
{
}

} // verus!
