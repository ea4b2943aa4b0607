//! Images: their PNG form, and their transfer in chunks.

use sha2::Sha256;
use std::io::Cursor;
use std::sync::Arc;
use vstd::prelude::*;
use vstd::slice::slice_to_vec;
use vstd::string::StringExecFns;

use crate::digest::{absorbed, digest_of, sha256, sha256_finish, sha256_new, sha256_update};
use crate::fingerprint::{image_fingerprint, image_hash, image_payload_fingerprint};
use crate::text::{decimal, decimal_text, same_bytes};
use crate::units::{bytes_text, format_bytes};
use crate::wire::{ClipboardPayload, MessageView, PayloadView, WireMessage, CHUNK_SIZE};

verus! {

/// The most bytes of pixels that an image may have.
pub const MAX_IMAGE_BYTES: usize = 64 * 1024 * 1024;

/// The most bytes that an image may have as it is sent.
pub const MAX_IMAGE_TRANSFER_BYTES: usize = 64 * 1024 * 1024;

/// The PNG number of the colour type red, green, blue, alpha.
pub const RGBA: u8 = 6;

/// Why an image is refused.
#[derive(Debug, Clone, Copy, PartialEq, Eq, Structural)]
pub enum ImageError {
    /// The width or the height does not fit.
    Dimensions,
    /// The pixels are not as many as the size says.
    PixelCount,
    TooManyPixels,
    Encode,
    Header,
    NotRgba,
    Decode,
    Empty,
    TransferSize,
    ChunkSize,
    Offset,
    TooLong,
    SizeMismatch { expected: u64, actual: u64 },
    DigestMismatch,
    DimensionMismatch,
}

/// The bytes that the pixels of an image take.
pub open spec fn pixel_bytes(width: u32, height: u32) -> nat {
    (width as nat) * (height as nat) * 4
}

/// What the header of a PNG file says: width, height, the PNG numbers of the
/// colour type and of the bit depth, and how many bytes its pixels take.
pub uninterp spec fn png_header(bytes: Seq<u8>) -> Option<(u32, u32, u8, u8, usize)>;

/// The pixels of a PNG file's first frame, and how many bytes of them it fills.
pub uninterp spec fn png_frame(bytes: Seq<u8>) -> Option<(Seq<u8>, usize)>;

/// The PNG file of an image of red, green, blue and alpha bytes.
pub uninterp spec fn png_file(width: u32, height: u32, rgba: Seq<u8>) -> Option<Seq<u8>>;

/// The bytes that every PNG file begins with.
pub open spec fn png_signature() -> Seq<u8> {
    seq![0x89, 0x50, 0x4e, 0x47, 0x0d, 0x0a, 0x1a, 0x0a]
}

/// A frame as a value.
pub open spec fn frame_view(frame: Option<(Vec<u8>, usize)>) -> Option<(Seq<u8>, usize)> {
    match frame {
        Some((pixels, filled)) => Some((pixels@, filled)),
        None => None,
    }
}

/// A file as a value.
pub open spec fn file_view(file: Option<Vec<u8>>) -> Option<Seq<u8>> {
    match file {
        Some(file) => Some(file@),
        None => None,
    }
}

/// `png::Decoder::read_info`, without transformations: what the header says, and
/// nothing where the file is not a PNG file. Pixels of four bytes each take four
/// bytes times width times height.
#[verifier::external_body]
fn read_header(bytes: &[u8]) -> (header: Option<(u32, u32, u8, u8, usize)>)
    ensures
        header == png_header(bytes@),
        header matches Some((width, height, color, depth, size)) ==> color == RGBA && depth == 8
            ==> size == pixel_bytes(width, height),
{
    let mut decoder = png::Decoder::new(Cursor::new(bytes));
    decoder.set_transformations(png::Transformations::IDENTITY);
    let reader = decoder.read_info().ok()?;
    let info = reader.info();
    let color = info.color_type as u8;
    let depth = info.bit_depth as u8;
    Some((info.width, info.height, color, depth, reader.output_buffer_size()))
}

/// `png::Reader::next_frame`, on a buffer of the size that the header says: the
/// buffer, and how much of it the frame fills; nothing where the pixels cannot be
/// read.
#[verifier::external_body]
fn read_frame_pixels(bytes: &[u8]) -> (frame: Option<(Vec<u8>, usize)>)
    requires
        png_header(bytes@) matches Some(header) && header.4 <= MAX_IMAGE_BYTES,
    ensures
        frame_view(frame) == png_frame(bytes@),
        frame matches Some((pixels, _)) ==> (png_header(bytes@) matches Some(header)
            && pixels@.len() == header.4),
{
    let mut decoder = png::Decoder::new(Cursor::new(bytes));
    decoder.set_transformations(png::Transformations::IDENTITY);
    let mut reader = decoder.read_info().ok()?;
    let mut pixels = vec![0u8; reader.output_buffer_size()];
    let output = reader.next_frame(&mut pixels).ok()?;
    Some((pixels, output.buffer_size()))
}

/// `png::Encoder` with `write_header` and `write_image_data`: a PNG file, which
/// begins with the PNG signature, and from which decoding reads the same size and
/// the same pixels. It refuses an image without width or height, and no other whose
/// pixels are as many as its size says. The bound on the pixels keeps every row within the decoder's own limit.
#[verifier::external_body]
fn write_png(width: u32, height: u32, rgba: &[u8]) -> (file: Option<Vec<u8>>)
    requires
        rgba@.len() == pixel_bytes(width, height),
        rgba@.len() <= MAX_IMAGE_BYTES,
    ensures
        file is None <==> (width == 0 || height == 0),
        file_view(file) == png_file(width, height, rgba@),
        file matches Some(written) ==> png_signature().is_prefix_of(written@),
        file matches Some(written) ==> png_header(written@) == Some(
            (width, height, RGBA, 8u8, rgba@.len() as usize),
        ),
        file matches Some(written) ==> png_frame(written@) == Some(
            (rgba@, rgba@.len() as usize),
        ),
{
    let mut file = Vec::new();
    let mut encoder = png::Encoder::new(&mut file, width, height);
    encoder.set_color(png::ColorType::Rgba);
    encoder.set_depth(png::BitDepth::Eight);
    let mut writer = encoder.write_header().ok()?;
    writer.write_image_data(rgba).ok()?;
    drop(writer);
    Some(file)
}

/// How many bytes the pixels take; nothing where that does not fit.
fn byte_count(width: u32, height: u32) -> (count: Option<usize>)
    ensures
        count is Some <==> pixel_bytes(width, height) <= usize::MAX,
        count matches Some(count) ==> count == pixel_bytes(width, height),
{
    let w: usize = width as usize;
    let h: usize = height as usize;
    match w.checked_mul(h) {
        None => None,
        Some(pixels) => pixels.checked_mul(4),
    }
}

/// Why pixels are refused, if they are.
pub open spec fn encode_fault(width: u32, height: u32, rgba: Seq<u8>) -> Option<ImageError> {
    if pixel_bytes(width, height) > usize::MAX {
        Some(ImageError::Dimensions)
    } else if rgba.len() != pixel_bytes(width, height) {
        Some(ImageError::PixelCount)
    } else if rgba.len() > MAX_IMAGE_BYTES {
        Some(ImageError::TooManyPixels)
    } else if width == 0 || height == 0 {
        Some(ImageError::Encode)
    } else {
        None
    }
}

/// Writes pixels as a PNG file, which begins with the PNG signature. Decoding it gives the same size and the
/// same pixels.
pub fn encode_png(width: u32, height: u32, rgba: &[u8]) -> (r: Result<Vec<u8>, ImageError>)
    ensures
        r is Ok <==> encode_fault(width, height, rgba@) is None,
        r matches Err(error) ==> encode_fault(width, height, rgba@) == Some(error),
        r matches Ok(file) ==> {
            &&& png_file(width, height, rgba@) == Some(file@)
            &&& png_signature().is_prefix_of(file@)
            &&& decoded(png_header(file@), png_frame(file@)) == Ok::<
                (u32, u32, Seq<u8>),
                ImageError,
            >((width, height, rgba@))
        },
{
    let expected: usize = match byte_count(width, height) {
        Some(expected) => expected,
        None => {
            return Err(ImageError::Dimensions);
        },
    };
    if rgba.len() != expected {
        return Err(ImageError::PixelCount);
    }
    if expected > MAX_IMAGE_BYTES {
        return Err(ImageError::TooManyPixels);
    }
    match write_png(width, height, rgba) {
        Some(file) => {
            proof {
                assert(rgba@.take(rgba@.len() as int) == rgba@);
            }
            Ok(file)
        },
        None => Err(ImageError::Encode),
    }
}

/// What a header that was read means: the size of the image, or why it is refused.
pub open spec fn header_size(header: Option<(u32, u32, u8, u8, usize)>) -> Result<
    (u32, u32),
    ImageError,
> {
    match header {
        None => Err(ImageError::Header),
        Some((width, height, color, depth, size)) => {
            if color != RGBA || depth != 8 {
                Err(ImageError::NotRgba)
            } else if pixel_bytes(width, height) > usize::MAX {
                Err(ImageError::Dimensions)
            } else if pixel_bytes(width, height) > MAX_IMAGE_BYTES || size > MAX_IMAGE_BYTES {
                Err(ImageError::TooManyPixels)
            } else {
                Ok((width, height))
            }
        },
    }
}

/// What a frame that was read means, for an image of a given size.
pub open spec fn frame_pixels(
    width: u32,
    height: u32,
    frame: Option<(Seq<u8>, usize)>,
) -> Result<(u32, u32, Seq<u8>), ImageError> {
    match frame {
        None => Err(ImageError::Decode),
        Some((pixels, filled)) => {
            if filled != pixel_bytes(width, height) {
                Err(ImageError::PixelCount)
            } else if filled <= pixels.len() {
                Ok((width, height, pixels.take(filled as int)))
            } else {
                Ok((width, height, pixels))
            }
        },
    }
}

/// What a file means whose header and first frame are these.
pub open spec fn decoded(
    header: Option<(u32, u32, u8, u8, usize)>,
    frame: Option<(Seq<u8>, usize)>,
) -> Result<(u32, u32, Seq<u8>), ImageError> {
    match header_size(header) {
        Err(error) => Err(error),
        Ok((width, height)) => frame_pixels(width, height, frame),
    }
}

/// A decoded image as a value.
pub open spec fn decoded_view(r: Result<(u32, u32, Vec<u8>), ImageError>) -> Result<
    (u32, u32, Seq<u8>),
    ImageError,
> {
    match r {
        Ok((width, height, pixels)) => Ok((width, height, pixels@)),
        Err(error) => Err(error),
    }
}

/// Whether a header is that of an image that is accepted, and of which size.
pub fn check_header(header: Option<(u32, u32, u8, u8, usize)>) -> (r: Result<
    (u32, u32),
    ImageError,
>)
    ensures
        r == header_size(header),
{
    match header {
        None => Err(ImageError::Header),
        Some((width, height, color, depth, size)) => {
            if color != RGBA || depth != 8 {
                return Err(ImageError::NotRgba);
            }
            match byte_count(width, height) {
                None => Err(ImageError::Dimensions),
                Some(expected) => {
                    if expected > MAX_IMAGE_BYTES || size > MAX_IMAGE_BYTES {
                        Err(ImageError::TooManyPixels)
                    } else {
                        Ok((width, height))
                    }
                },
            }
        },
    }
}

/// Takes the pixels out of a frame.
pub fn take_pixels(width: u32, height: u32, frame: Option<(Vec<u8>, usize)>) -> (r: Result<
    (u32, u32, Vec<u8>),
    ImageError,
>)
    ensures
        decoded_view(r) == frame_pixels(width, height, frame_view(frame)),
{
    match frame {
        None => Err(ImageError::Decode),
        Some((pixels, filled)) => {
            let expected: usize = match byte_count(width, height) {
                Some(expected) => expected,
                None => {
                    return Err(ImageError::PixelCount);
                },
            };
            if filled != expected {
                return Err(ImageError::PixelCount);
            }
            let mut pixels = pixels;
            if filled <= pixels.len() {
                pixels.truncate(filled);
            }
            Ok((width, height, pixels))
        },
    }
}

/// Reads a PNG file: its size, and its pixels of four bytes each.
pub fn decode_png(bytes: &[u8]) -> (r: Result<(u32, u32, Vec<u8>), ImageError>)
    ensures
        decoded_view(r) == decoded(png_header(bytes@), png_frame(bytes@)),
        r matches Ok((width, height, pixels)) ==> pixels@.len() == pixel_bytes(width, height),
{
    let header = read_header(bytes);
    match check_header(header) {
        Err(error) => Err(error),
        Ok((width, height)) => {
            let frame = read_frame_pixels(bytes);
            take_pixels(width, height, frame)
        },
    }
}

/// What an image is called in messages.
pub open spec fn image_summary(width: u32, height: u32, size: nat) -> Seq<char> {
    "图片 "@ + decimal(width as nat) + "x"@ + decimal(height as nat) + "（"@ + bytes_text(size)
        + "）"@
}

/// Writes what an image is called in messages.
pub fn image_text(width: u32, height: u32, size: u64) -> (text: String)
    ensures
        text@ == image_summary(width, height, size as nat),
{
    let mut text = String::from_str("图片 ");
    let w = decimal_text(width as u128);
    text.append(w.as_str());
    text.append("x");
    let h = decimal_text(height as u128);
    text.append(h.as_str());
    text.append("（");
    let bytes = format_bytes(size);
    text.append(bytes.as_str());
    text.append("）");
    text
}

/// An image as it stands on the clipboard.
pub struct RawImage {
    pub width: usize,
    pub height: usize,
    pub bytes: Vec<u8>,
}

/// An image that is ready to be sent.
pub struct CapturedImage {
    pub fingerprint: u64,
    pub width: u32,
    pub height: u32,
    pub bytes: Arc<Vec<u8>>,
}

/// The image that was captured last, and the fingerprint of its pixels.
pub struct CachedImage {
    pub raw_fingerprint: u64,
    pub image: CapturedImage,
}

impl CapturedImage {
    /// Its fingerprint is that of its size and bytes.
    pub open spec fn wf(self) -> bool {
        self.fingerprint == image_hash(self.width, self.height, self.bytes@)
    }

    /// The fingerprint.
    pub fn fingerprint(&self) -> (r: u64)
        ensures
            r == self.fingerprint,
    {
        self.fingerprint
    }

    /// What the image is called in messages.
    pub fn summary(&self) -> (text: String)
        ensures
            text@ == image_summary(self.width, self.height, self.bytes@.len()),
    {
        image_text(self.width, self.height, self.bytes.len() as u64)
    }

    /// The same image again.
    pub fn share(&self) -> (r: CapturedImage)
        ensures
            r == *self,
    {
        CapturedImage {
            fingerprint: self.fingerprint,
            width: self.width,
            height: self.height,
            bytes: self.bytes.clone(),
        }
    }
}

/// Whether the image captured last has these pixels.
pub open spec fn is_cached(cache: Option<CachedImage>, image: RawImage) -> bool {
    cache matches Some(cached) && cached.raw_fingerprint == image_hash(
        image.width as u32,
        image.height as u32,
        image.bytes@,
    )
}

/// What capturing an image gives, and what is then kept of it.
pub open spec fn captures(
    image: RawImage,
    before: Option<CachedImage>,
    r: Result<Option<CapturedImage>, ImageError>,
    after: Option<CachedImage>,
) -> bool {
    let width = image.width as u32;
    let height = image.height as u32;
    if image.width > u32::MAX || image.height > u32::MAX {
        r == Err::<Option<CapturedImage>, ImageError>(ImageError::Dimensions) && after == before
    } else if is_cached(before, image) {
        r == Ok::<Option<CapturedImage>, ImageError>(Some(before->0.image)) && after == before
    } else {
        match encode_fault(width, height, image.bytes@) {
            Some(error) => r == Err::<Option<CapturedImage>, ImageError>(error) && after == before,
            None => {
                &&& r matches Ok(Some(captured))
                &&& captured.wf()
                &&& captured.width == width
                &&& captured.height == height
                &&& png_file(width, height, image.bytes@) == Some(captured.bytes@)
                &&& decoded(png_header(captured.bytes@), png_frame(captured.bytes@)) == Ok::<
                    (u32, u32, Seq<u8>),
                    ImageError,
                >((width, height, image.bytes@))
                &&& after matches Some(cached)
                &&& cached.raw_fingerprint == image_hash(width, height, image.bytes@)
                &&& cached.image == captured
            },
        }
    }
}

/// Captures the image on the clipboard, if there is one. The image captured last
/// is given back where the pixels are still the same.
pub fn capture_image(image: Option<RawImage>, cache: &mut Option<CachedImage>) -> (r: Result<
    Option<CapturedImage>,
    ImageError,
>)
    ensures
        match image {
            None => r == Ok::<Option<CapturedImage>, ImageError>(None) && *final(cache) == None::<
                CachedImage,
            >,
            Some(image) => captures(image, *old(cache), r, *final(cache)),
        },
{
    let image = match image {
        None => {
            *cache = None;
            return Ok(None);
        },
        Some(image) => image,
    };
    if image.width > u32::MAX as usize || image.height > u32::MAX as usize {
        return Err(ImageError::Dimensions);
    }
    let width: u32 = image.width as u32;
    let height: u32 = image.height as u32;
    let raw_fingerprint: u64 = image_fingerprint(width, height, image.bytes.as_slice());
    if let Some(cached) = cache.as_ref() {
        if cached.raw_fingerprint == raw_fingerprint {
            return Ok(Some(cached.image.share()));
        }
    }
    let bytes = match encode_png(width, height, image.bytes.as_slice()) {
        Ok(bytes) => bytes,
        Err(error) => {
            return Err(error);
        },
    };
    let fingerprint: u64 = image_payload_fingerprint(width, height, bytes.as_slice());
    let captured = CapturedImage { fingerprint, width, height, bytes: Arc::new(bytes) };
    *cache = Some(CachedImage { raw_fingerprint, image: captured.share() });
    Ok(Some(captured))
}

/// What has come in of an image.
pub ghost struct ImageView {
    pub fingerprint: u64,
    pub width: u32,
    pub height: u32,
    pub expected: nat,
    pub received: Seq<u8>,
}

/// Why the start of an image is refused, if it is.
pub open spec fn start_fault(width: u32, height: u32, size: u64) -> Option<ImageError> {
    if width == 0 || height == 0 {
        Some(ImageError::Empty)
    } else if size == 0 || size > MAX_IMAGE_TRANSFER_BYTES {
        Some(ImageError::TransferSize)
    } else {
        None
    }
}

impl ImageView {
    /// An image of which nothing has come in.
    pub open spec fn started(fingerprint: u64, width: u32, height: u32, size: u64) -> ImageView {
        ImageView { fingerprint, width, height, expected: size as nat, received: seq![] }
    }

    /// The image was accepted, and has not grown longer than announced.
    pub open spec fn valid(self) -> bool {
        &&& self.width > 0
        &&& self.height > 0
        &&& 0 < self.expected <= MAX_IMAGE_TRANSFER_BYTES
        &&& self.received.len() <= self.expected
    }

    /// Why a chunk is refused, if it is.
    pub open spec fn chunk_fault(self, offset: u64, bytes: Seq<u8>) -> Option<ImageError> {
        if bytes.len() == 0 || bytes.len() > CHUNK_SIZE {
            Some(ImageError::ChunkSize)
        } else if offset != self.received.len() {
            Some(ImageError::Offset)
        } else if self.received.len() + bytes.len() > self.expected {
            Some(ImageError::TooLong)
        } else {
            None
        }
    }

    /// The image with a chunk put at its end.
    pub open spec fn with_chunk(self, bytes: Seq<u8>) -> ImageView {
        ImageView { received: self.received + bytes, ..self }
    }

    /// Why the end of the image is refused before it is decoded, if it is.
    pub open spec fn end_fault(self, digest: Seq<u8>) -> Option<ImageError> {
        if self.received.len() != self.expected {
            Some(
                ImageError::SizeMismatch {
                    expected: self.expected as u64,
                    actual: self.received.len() as u64,
                },
            )
        } else if sha256(self.received) != digest {
            Some(ImageError::DigestMismatch)
        } else {
            None
        }
    }

    /// Why the image is refused after it was decoded, if it is.
    pub open spec fn decode_fault(
        self,
        image: Result<(u32, u32, Seq<u8>), ImageError>,
    ) -> Option<ImageError> {
        match image {
            Err(error) => Some(error),
            Ok((width, height, _)) => {
                if width != self.width || height != self.height {
                    Some(ImageError::DimensionMismatch)
                } else {
                    None
                }
            },
        }
    }

    /// Why the image is not accepted, if it is not.
    pub open spec fn finish_fault(self, digest: Seq<u8>) -> Option<ImageError> {
        match self.end_fault(digest) {
            Some(error) => Some(error),
            None => self.decode_fault(
                decoded(png_header(self.received), png_frame(self.received)),
            ),
        }
    }

    /// What the clipboard gets.
    pub open spec fn payload(self) -> PayloadView {
        PayloadView::Image { width: self.width, height: self.height, bytes: self.received }
    }
}

/// An image that is coming in.
pub struct IncomingImage {
    fingerprint: u64,
    width: u32,
    height: u32,
    expected_size: u64,
    bytes: Vec<u8>,
    hasher: Sha256,
}

impl View for IncomingImage {
    type V = ImageView;

    closed spec fn view(&self) -> ImageView {
        ImageView {
            fingerprint: self.fingerprint,
            width: self.width,
            height: self.height,
            expected: self.expected_size as nat,
            received: self.bytes@,
        }
    }
}

impl IncomingImage {
    /// The parts fit each other.
    pub closed spec fn wf(self) -> bool {
        self@.valid() && absorbed(self.hasher) == self.bytes@
    }

    /// Begins an image. It is refused without width or height, and if it is empty
    /// or too large.
    pub fn start(fingerprint: u64, width: u32, height: u32, expected_size: u64) -> (r: Result<
        IncomingImage,
        ImageError,
    >)
        ensures
            r is Ok <==> start_fault(width, height, expected_size) is None,
            r matches Err(error) ==> start_fault(width, height, expected_size) == Some(error),
            r matches Ok(image) ==> image.wf() && image@ == ImageView::started(
                fingerprint,
                width,
                height,
                expected_size,
            ),
    {
        if width == 0 || height == 0 {
            return Err(ImageError::Empty);
        }
        if expected_size == 0 || expected_size > MAX_IMAGE_TRANSFER_BYTES as u64 {
            return Err(ImageError::TransferSize);
        }
        let image = IncomingImage {
            fingerprint,
            width,
            height,
            expected_size,
            bytes: Vec::with_capacity(expected_size as usize),
            hasher: sha256_new(),
        };
        proof {
            assert(image@.received == Seq::<u8>::empty());
        }
        Ok(image)
    }

    /// Takes one chunk; a refused chunk changes nothing.
    pub fn accept_chunk(&mut self, offset: u64, bytes: &[u8]) -> (r: Result<(), ImageError>)
        requires
            old(self).wf(),
        ensures
            final(self).wf(),
            r is Ok <==> old(self)@.chunk_fault(offset, bytes@) is None,
            r is Ok ==> final(self)@ == old(self)@.with_chunk(bytes@),
            r matches Err(error) ==> *final(self) == *old(self) && old(self)@.chunk_fault(
                offset,
                bytes@,
            ) == Some(error),
    {
        if bytes.len() == 0 || bytes.len() > CHUNK_SIZE {
            return Err(ImageError::ChunkSize);
        }
        if offset != self.bytes.len() as u64 {
            return Err(ImageError::Offset);
        }
        let length: u64 = bytes.len() as u64;
        if length > self.expected_size - offset {
            return Err(ImageError::TooLong);
        }
        let ghost before = self.bytes@;
        self.bytes.extend_from_slice(bytes);
        proof {
            assert(self.bytes@ == before + bytes@);
        }
        sha256_update(&mut self.hasher, bytes);
        Ok(())
    }

    /// Whether all of the image came in, with the digest announced.
    pub fn check_end(&self, expected_sha256: [u8; 32]) -> (fault: Option<ImageError>)
        requires
            self.wf(),
        ensures
            fault == self@.end_fault(expected_sha256@),
    {
        let actual: u64 = self.bytes.len() as u64;
        if actual != self.expected_size {
            return Some(ImageError::SizeMismatch { expected: self.expected_size, actual });
        }
        let digest = sha256_finish(&self.hasher);
        if !same_bytes(digest.as_slice(), expected_sha256.as_slice()) {
            return Some(ImageError::DigestMismatch);
        }
        None
    }

    /// Turns the image into what the clipboard gets, given what decoding it gave.
    pub fn accept_decoded(self, image: Result<(u32, u32, Vec<u8>), ImageError>) -> (r: Result<
        (u64, ClipboardPayload),
        ImageError,
    >)
        ensures
            r is Ok <==> self@.decode_fault(decoded_view(image)) is None,
            r matches Err(error) ==> self@.decode_fault(decoded_view(image)) == Some(error),
            r matches Ok((fingerprint, payload)) ==> fingerprint == self@.fingerprint && payload@
                == self@.payload(),
    {
        match image {
            Err(error) => Err(error),
            Ok((width, height, _)) => {
                if width != self.width || height != self.height {
                    return Err(ImageError::DimensionMismatch);
                }
                Ok(
                    (
                        self.fingerprint,
                        ClipboardPayload::Image {
                            width: self.width,
                            height: self.height,
                            bytes: self.bytes,
                        },
                    ),
                )
            },
        }
    }

    /// Ends the image: all of it came in, with the digest announced, and it is a
    /// PNG file of the size announced.
    pub fn finish(self, expected_sha256: [u8; 32]) -> (r: Result<
        (u64, ClipboardPayload),
        ImageError,
    >)
        requires
            self.wf(),
        ensures
            r is Ok <==> self@.finish_fault(expected_sha256@) is None,
            r matches Err(error) ==> self@.finish_fault(expected_sha256@) == Some(error),
            r matches Ok((fingerprint, payload)) ==> fingerprint == self@.fingerprint && payload@
                == self@.payload(),
    {
        if let Some(error) = self.check_end(expected_sha256) {
            return Err(error);
        }
        let image = decode_png(self.bytes.as_slice());
        self.accept_decoded(image)
    }
}

/// Whether decoded pixels may go on the clipboard: the file has to be of the size
/// that the message says.
pub fn apply_image(width: u32, height: u32, bytes: &[u8]) -> (r: Result<Vec<u8>, ImageError>)
    ensures
        match decoded(png_header(bytes@), png_frame(bytes@)) {
            Err(error) => r == Err::<Vec<u8>, ImageError>(error),
            Ok((decoded_width, decoded_height, pixels)) => {
                if decoded_width != width || decoded_height != height {
                    r == Err::<Vec<u8>, ImageError>(ImageError::DimensionMismatch)
                } else {
                    r matches Ok(applied) && applied@ == pixels
                }
            },
        },
{
    match decode_png(bytes) {
        Err(error) => Err(error),
        Ok((decoded_width, decoded_height, pixels)) => {
            if decoded_width != width || decoded_height != height {
                return Err(ImageError::DimensionMismatch);
            }
            Ok(pixels)
        },
    }
}

/// The end of the chunk that begins at an offset.
pub open spec fn chunk_end(length: nat, offset: nat) -> nat {
    if offset + CHUNK_SIZE < length {
        offset + CHUNK_SIZE as nat
    } else {
        length
    }
}

/// The chunks of an image from an offset on.
pub open spec fn image_chunks(id: Seq<char>, bytes: Seq<u8>, offset: nat) -> Seq<MessageView>
    decreases bytes.len() - offset,
{
    if offset >= bytes.len() {
        seq![]
    } else {
        seq![
            MessageView::ImageChunk {
                id,
                offset: offset as u64,
                bytes: bytes.subrange(offset as int, chunk_end(bytes.len(), offset) as int),
            },
        ] + image_chunks(id, bytes, chunk_end(bytes.len(), offset))
    }
}

/// The messages that send an image: its start, its chunks in order, its end.
pub open spec fn image_messages(
    id: Seq<char>,
    fingerprint: u64,
    width: u32,
    height: u32,
    bytes: Seq<u8>,
) -> Seq<MessageView> {
    seq![
        MessageView::ImageStart { id, fingerprint, width, height, size: bytes.len() as u64 },
    ] + image_chunks(id, bytes, 0).push(MessageView::ImageEnd { id, sha256: sha256(bytes) })
}

/// How far an image has been sent.
#[derive(Clone, Copy)]
enum SendStage {
    Start,
    Chunks { offset: usize },
    Done,
}

/// An image that is going out.
pub struct ImageSender {
    id: String,
    image: CapturedImage,
    stage: SendStage,
}

impl ImageSender {
    /// The messages that are still to be sent.
    pub closed spec fn remaining(self) -> Seq<MessageView> {
        match self.stage {
            SendStage::Start => image_messages(
                self.id@,
                self.image.fingerprint,
                self.image.width,
                self.image.height,
                self.image.bytes@,
            ),
            SendStage::Chunks { offset } => image_chunks(
                self.id@,
                self.image.bytes@,
                offset as nat,
            ).push(MessageView::ImageEnd { id: self.id@, sha256: sha256(self.image.bytes@) }),
            SendStage::Done => seq![],
        }
    }

    /// The image is one that may be sent.
    pub closed spec fn wf(self) -> bool {
        &&& self.image.bytes@.len() <= MAX_IMAGE_TRANSFER_BYTES
        &&& self.stage matches SendStage::Chunks { offset } ==> offset <= self.image.bytes@.len()
    }

    /// The identifier that the messages carry.
    pub closed spec fn id(self) -> Seq<char> {
        self.id@
    }

    /// Begins to send an image; one that is too large is refused.
    pub fn send_image_transfer(id: &str, image: &CapturedImage) -> (r: Result<
        ImageSender,
        ImageError,
    >)
        ensures
            r is Ok <==> image.bytes@.len() <= MAX_IMAGE_TRANSFER_BYTES,
            r matches Err(error) ==> error == ImageError::TransferSize,
            r matches Ok(sender) ==> sender.wf() && sender.id() == id@ && sender.remaining()
                == image_messages(
                id@,
                image.fingerprint,
                image.width,
                image.height,
                image.bytes@,
            ),
    {
        if image.bytes.len() > MAX_IMAGE_TRANSFER_BYTES {
            return Err(ImageError::TransferSize);
        }
        Ok(
            ImageSender {
                id: String::from_str(id),
                image: image.share(),
                stage: SendStage::Start,
            },
        )
    }

    /// The next message to send; nothing once all were.
    pub fn next_message(&mut self) -> (r: Option<WireMessage>)
        requires
            old(self).wf(),
        ensures
            final(self).wf(),
            final(self).id() == old(self).id(),
            r is None <==> old(self).remaining().len() == 0,
            r is None ==> *final(self) == *old(self),
            r matches Some(message) ==> message@ == old(self).remaining()[0]
                && final(self).remaining() == old(self).remaining().skip(1),
    {
        match self.stage {
            SendStage::Start => {
                let message = WireMessage::ImageStart {
                    id: self.id.clone(),
                    fingerprint: self.image.fingerprint,
                    width: self.image.width,
                    height: self.image.height,
                    size: self.image.bytes.len() as u64,
                };
                let ghost before = self.remaining();
                self.stage = SendStage::Chunks { offset: 0 };
                proof {
                    assert(self.remaining() == before.skip(1));
                }
                Some(message)
            },
            SendStage::Chunks { offset } => {
                let length: usize = self.image.bytes.len();
                let ghost before = self.remaining();
                if offset < length {
                    let end: usize = if length - offset > CHUNK_SIZE {
                        offset + CHUNK_SIZE
                    } else {
                        length
                    };
                    let bytes = slice_to_vec(
                        vstd::slice::slice_subrange(self.image.bytes.as_slice(), offset, end),
                    );
                    self.stage = SendStage::Chunks { offset: end };
                    proof {
                        assert(self.remaining() == before.skip(1));
                    }
                    Some(WireMessage::ImageChunk { id: self.id.clone(), offset: offset as u64, bytes })
                } else {
                    let sha256 = digest_of(self.image.bytes.as_slice());
                    self.stage = SendStage::Done;
                    proof {
                        assert(self.remaining() == before.skip(1));
                    }
                    Some(WireMessage::ImageEnd { id: self.id.clone(), sha256 })
                }
            },
            SendStage::Done => None,
        }
    }
}

/// What a receiver has after chunks that it accepts.
pub open spec fn received_all(image: ImageView, messages: Seq<MessageView>) -> Option<ImageView>
    decreases messages.len(),
{
    if messages.len() == 0 {
        Some(image)
    } else {
        match messages[0] {
            MessageView::ImageChunk { id, offset, bytes } => {
                if image.chunk_fault(offset, bytes) is None {
                    received_all(image.with_chunk(bytes), messages.skip(1))
                } else {
                    None
                }
            },
            _ => None,
        }
    }
}

proof fn lemma_chunks_arrive(id: Seq<char>, bytes: Seq<u8>, image: ImageView)
    requires
        image.expected == bytes.len(),
        bytes.len() <= MAX_IMAGE_TRANSFER_BYTES,
        image.received.len() <= bytes.len(),
        image.received == bytes.take(image.received.len() as int),
    ensures
        received_all(image, image_chunks(id, bytes, image.received.len())) == Some(
            ImageView { received: bytes, ..image },
        ),
    decreases bytes.len() - image.received.len(),
{
    let offset = image.received.len();
    let messages = image_chunks(id, bytes, offset);
    if offset < bytes.len() {
        let end = chunk_end(bytes.len(), offset);
        let chunk = bytes.subrange(offset as int, end as int);
        assert(messages[0] == MessageView::ImageChunk { id, offset: offset as u64, bytes: chunk });
        assert(messages.skip(1) == image_chunks(id, bytes, end));
        let next = image.with_chunk(chunk);
        assert(next.received == bytes.take(end as int));
        lemma_chunks_arrive(id, bytes, next);
    } else {
        assert(bytes.take(offset as int) == bytes);
        assert(image.received == bytes);
    }
}

/// An image that is sent arrives: the receiver accepts its start, accepts every
/// chunk in turn, then holds the same bytes, and finds their digest right.
pub proof fn law_image_transfer_round_trip(
    id: Seq<char>,
    fingerprint: u64,
    width: u32,
    height: u32,
    bytes: Seq<u8>,
)
    requires
        width > 0,
        height > 0,
        0 < bytes.len() <= MAX_IMAGE_TRANSFER_BYTES,
    ensures
        ({
            let messages = image_messages(id, fingerprint, width, height, bytes);
            let size = bytes.len() as u64;
            let begun = ImageView::started(fingerprint, width, height, size);
            let ended = ImageView { received: bytes, ..begun };
            &&& messages[0] == MessageView::ImageStart { id, fingerprint, width, height, size }
            &&& start_fault(width, height, size) is None
            &&& received_all(begun, messages.subrange(1, messages.len() - 1)) == Some(ended)
            &&& messages.last() == MessageView::ImageEnd { id, sha256: sha256(bytes) }
            &&& ended.end_fault(sha256(bytes)) is None
        }),
{
    let messages = image_messages(id, fingerprint, width, height, bytes);
    let begun = ImageView::started(fingerprint, width, height, bytes.len() as u64);
    assert(messages.subrange(1, messages.len() - 1) == image_chunks(id, bytes, 0));
    assert(begun.received == bytes.take(0));
    lemma_chunks_arrive(id, bytes, begun);
}

/// A captured image that arrives whole is accepted: it decodes, to the size that
/// it was sent with.
pub proof fn law_captured_image_is_accepted(image: ImageView, rgba: Seq<u8>)
    requires
        image.received.len() == image.expected,
        decoded(png_header(image.received), png_frame(image.received)) == Ok::<
            (u32, u32, Seq<u8>),
            ImageError,
        >((image.width, image.height, rgba)),
    ensures
        image.finish_fault(sha256(image.received)) is None,
{
}

} // verus!
