//! What is read from the local clipboard: files before an image before a text,
//! and what of it is remembered.

use std::sync::Arc;
use vstd::prelude::*;
use vstd::string::StringExecFns;
use vstd::utf8::encode_utf8;

use crate::capture::{files_summary, local_views, CapturedFiles};
use crate::fingerprint::{text_fingerprint, text_hash};
use crate::image::{
    capture_image, captures, image_messages, image_summary, image_text, CachedImage, CapturedImage,
    ImageError, ImageSender, RawImage, MAX_IMAGE_TRANSFER_BYTES,
};
use crate::manifest::path_views;
use crate::paths::RelativePath;
use crate::receive::manifest_summary;
use crate::send::{FileSender, SendError, SendView};
use crate::text::{same_bytes, same_text};
use crate::units::{bytes_text, format_bytes};
use crate::wire::{
    total_size, ClipboardPayload, MessageView, PayloadView, WireMessage,
    FILE_CACHE_VALIDATION_INTERVAL, MAX_TRANSFER_BYTES,
};

verus! {

/// What was read from the clipboard.
pub enum CapturedPayload {
    Text(String),
    Image(CapturedImage),
    Files(Arc<CapturedFiles>),
}

impl CapturedPayload {
    /// Captured files can be sent.
    pub open spec fn wf(self) -> bool {
        self matches CapturedPayload::Files(files) ==> files.wf()
    }

    /// By what the clipboard is known again.
    pub open spec fn hash(self) -> u64 {
        match self {
            CapturedPayload::Text(text) => text_hash(text@),
            CapturedPayload::Image(image) => image.fingerprint,
            CapturedPayload::Files(files) => files.identity,
        }
    }

    /// What the clipboard is called in messages.
    pub open spec fn summary(self) -> Seq<char> {
        match self {
            CapturedPayload::Text(text) => text_name(text@),
            CapturedPayload::Image(image) => image_summary(
                image.width,
                image.height,
                image.bytes@.len(),
            ),
            CapturedPayload::Files(files) => manifest_summary(files.manifest()),
        }
    }
}

/// What a text is called in messages.
pub open spec fn text_name(text: Seq<char>) -> Seq<char> {
    "文本（"@ + bytes_text(encode_utf8(text).len()) + "）"@
}

/// What a text is called in messages.
pub fn text_summary(text: &str) -> (r: String)
    ensures
        r@ == text_name(text@),
{
    let mut r = String::from_str("文本（");
    let bytes = format_bytes(text.as_bytes().len() as u64);
    r.append(bytes.as_str());
    r.append("）");
    r
}

/// What a clipboard that came in one message is called in messages.
pub fn payload_summary(payload: &ClipboardPayload) -> (r: String)
    ensures
        r@ == match payload@ {
            PayloadView::Text(text) => text_name(text),
            PayloadView::Image { width, height, bytes } => image_summary(
                width,
                height,
                bytes.len(),
            ),
        },
{
    match payload {
        ClipboardPayload::Text(text) => text_summary(text.as_str()),
        ClipboardPayload::Image { width, height, bytes } => image_text(
            *width,
            *height,
            bytes.len() as u64,
        ),
    }
}

/// What the clipboard is called in messages.
pub fn captured_summary(payload: &CapturedPayload) -> (r: String)
    requires
        payload matches CapturedPayload::Files(files) ==> total_size(files.manifest()) <= u64::MAX,
    ensures
        r@ == payload.summary(),
{
    match payload {
        CapturedPayload::Text(text) => text_summary(text.as_str()),
        CapturedPayload::Image(image) => image.summary(),
        CapturedPayload::Files(files) => files_summary(files),
    }
}

/// By what the clipboard is known again.
pub fn captured_fingerprint(payload: &CapturedPayload) -> (r: u64)
    ensures
        r == payload.hash(),
{
    match payload {
        CapturedPayload::Text(text) => text_fingerprint(text.as_str()),
        CapturedPayload::Image(image) => image.fingerprint(),
        CapturedPayload::Files(files) => files.identity,
    }
}

/// How the clipboard is sent.
pub enum Outgoing {
    /// In one message.
    Message(WireMessage),
    Image(ImageSender),
    /// Beginning with this message.
    Files(FileSender, WireMessage),
    /// Not at all: the files are ones that were received.
    Nothing,
}

/// Why the clipboard cannot be sent.
#[derive(Debug, Clone, Copy, PartialEq, Eq, Structural)]
pub enum OutgoingError {
    Image(ImageError),
    Files(SendError),
}

/// Decides how the clipboard is sent: a text in one message, an image and files in
/// chunks, and files that were received not at all.
pub fn send_payload(id: &str, payload: CapturedPayload) -> (r: Result<Outgoing, OutgoingError>)
    requires
        payload.wf(),
    ensures
        match payload {
            CapturedPayload::Text(text) => {
                &&& r matches Ok(Outgoing::Message(message))
                &&& message@ == (MessageView::Clipboard {
                    id: id@,
                    payload: PayloadView::Text(text@),
                })
            },
            CapturedPayload::Image(image) => if image.bytes@.len() <= MAX_IMAGE_TRANSFER_BYTES {
                &&& r matches Ok(Outgoing::Image(sender))
                &&& sender.wf()
                &&& sender.remaining() == image_messages(
                    id@,
                    image.fingerprint,
                    image.width,
                    image.height,
                    image.bytes@,
                )
            } else {
                r == Err::<Outgoing, OutgoingError>(OutgoingError::Image(ImageError::TransferSize))
            },
            CapturedPayload::Files(files) => if files.internal {
                r == Ok::<Outgoing, OutgoingError>(Outgoing::Nothing)
            } else if total_size(files.manifest()) > u64::MAX {
                r == Err::<Outgoing, OutgoingError>(OutgoingError::Files(SendError::SizeOverflow))
            } else if total_size(files.manifest()) > MAX_TRANSFER_BYTES {
                r == Err::<Outgoing, OutgoingError>(OutgoingError::Files(SendError::TooLarge))
            } else {
                &&& r matches Ok(Outgoing::Files(sender, message))
                &&& sender.wf()
                &&& sender@ == (SendView {
                    id: id@,
                    entries: local_views(files.entries@),
                    position: 0,
                    file_index: 0,
                    sent: seq![],
                })
                &&& message@ == (MessageView::TransferStart { id: id@, entries: files.manifest() })
            },
        },
{
    match payload {
        CapturedPayload::Text(text) => Ok(
            Outgoing::Message(
                WireMessage::Clipboard {
                    id: String::from_str(id),
                    payload: ClipboardPayload::Text(text),
                },
            ),
        ),
        CapturedPayload::Image(image) => {
            match ImageSender::send_image_transfer(id, &image) {
                Ok(sender) => Ok(Outgoing::Image(sender)),
                Err(error) => Err(OutgoingError::Image(error)),
            }
        },
        CapturedPayload::Files(files) => {
            if files.internal {
                return Ok(Outgoing::Nothing);
            }
            match FileSender::send_file_transfer(id, files) {
                Ok((sender, message)) => Ok(Outgoing::Files(sender, message)),
                Err(error) => Err(OutgoingError::Files(error)),
            }
        },
    }
}

/// What is remembered of the clipboard.
pub struct CaptureCache {
    /// The paths that were copied, and what was captured of them.
    pub files: Option<(Vec<RelativePath>, Arc<CapturedFiles>)>,
    /// Until when that is trusted, in nanoseconds.
    pub next_file_validation: Option<u64>,
    pub image: Option<CachedImage>,
    pub last_file_error: Option<String>,
}

/// What is remembered of copied files: the paths, and what was captured of them.
pub open spec fn remembered(files: Option<(Vec<RelativePath>, Arc<CapturedFiles>)>) -> Option<
    (Seq<Seq<Seq<u8>>>, CapturedFiles),
> {
    match files {
        Some((paths, captured)) => Some((path_views(paths@), *captured)),
        None => None,
    }
}

fn same_path(a: &RelativePath, b: &RelativePath) -> (r: bool)
    ensures
        r == (a@ == b@),
{
    if a.components.len() != b.components.len() {
        proof {
            assert(a@.len() != b@.len());
        }
        return false;
    }
    let mut i: usize = 0;
    while i < a.components.len()
        invariant
            i <= a.components@.len(),
            a.components@.len() == b.components@.len(),
            forall|k: int| 0 <= k < i ==> a@[k] == b@[k],
        decreases a.components@.len() - i,
    {
        proof {
            assert(a@[i as int] == a.components@[i as int]@);
            assert(b@[i as int] == b.components@[i as int]@);
        }
        if !same_bytes(a.components[i].as_slice(), b.components[i].as_slice()) {
            return false;
        }
        i += 1;
    }
    proof {
        assert(a@ == b@);
    }
    true
}

fn same_paths(a: &Vec<RelativePath>, b: &Vec<RelativePath>) -> (r: bool)
    ensures
        r == (path_views(a@) == path_views(b@)),
{
    if a.len() != b.len() {
        proof {
            assert(path_views(a@).len() != path_views(b@).len());
        }
        return false;
    }
    let mut i: usize = 0;
    while i < a.len()
        invariant
            i <= a@.len(),
            a@.len() == b@.len(),
            forall|k: int| 0 <= k < i ==> path_views(a@)[k] == path_views(b@)[k],
        decreases a@.len() - i,
    {
        proof {
            assert(path_views(a@)[i as int] == a@[i as int]@);
            assert(path_views(b@)[i as int] == b@[i as int]@);
        }
        if !same_path(&a[i], &b[i]) {
            return false;
        }
        i += 1;
    }
    proof {
        assert(path_views(a@) == path_views(b@));
    }
    true
}

impl Default for CaptureCache {
    /// Nothing is remembered.
    fn default() -> (cache: CaptureCache)
        ensures
            cache.files is None,
            cache.next_file_validation is None,
            cache.image is None,
            cache.last_file_error is None,
    {
        CaptureCache {
            files: None,
            next_file_validation: None,
            image: None,
            last_file_error: None,
        }
    }
}

impl CaptureCache {
    /// Whether what was captured is of these paths, and still trusted.
    pub open spec fn trusts(self, paths: Seq<Seq<Seq<u8>>>, now: u64) -> bool {
        &&& remembered(self.files) matches Some((cached, _))
        &&& cached == paths
        &&& self.next_file_validation matches Some(deadline)
        &&& deadline > now
    }

    /// What was captured of the same paths, while it is still trusted.
    pub fn cached_files(&self, paths: &Vec<RelativePath>, now: u64) -> (r: Option<
        Arc<CapturedFiles>,
    >)
        ensures
            r is Some <==> self.trusts(path_views(paths@), now),
            r matches Some(files) ==> remembered(self.files) == Some((path_views(paths@), *files)),
    {
        match (&self.files, self.next_file_validation) {
            (Some((cached, files)), Some(deadline)) => {
                if same_paths(cached, paths) && deadline > now {
                    Some(files.clone())
                } else {
                    None
                }
            },
            _ => None,
        }
    }

    /// Takes note of what was captured of copied paths.
    pub fn files_captured(&mut self, paths: Vec<RelativePath>, files: Arc<CapturedFiles>, now: u64)
        requires
            now + FILE_CACHE_VALIDATION_INTERVAL <= u64::MAX,
        ensures
            remembered(final(self).files) == Some((path_views(paths@), *files)),
            final(self).next_file_validation == Some(
                (now + FILE_CACHE_VALIDATION_INTERVAL) as u64,
            ),
            final(self).image == old(self).image,
            final(self).last_file_error is None,
    {
        self.files = Some((paths, files));
        self.next_file_validation = Some(now + FILE_CACHE_VALIDATION_INTERVAL);
        self.last_file_error = None;
    }

    /// Takes note that copied paths could not be captured. The answer says whether
    /// the reason is a new one.
    pub fn files_failed(&mut self, message: String) -> (announce: bool)
        ensures
            announce == !(old(self).last_file_error matches Some(last) && last@ == message@),
            final(self).last_file_error matches Some(last) && last@ == message@,
            final(self).files == old(self).files,
            final(self).next_file_validation == old(self).next_file_validation,
            final(self).image == old(self).image,
    {
        let announce = match &self.last_file_error {
            None => true,
            Some(last) => !same_text(message.as_str(), last.as_str()),
        };
        if announce {
            self.last_file_error = Some(message);
        }
        announce
    }

    /// Goes on without files, which are forgotten, to the image on the clipboard.
    pub fn without_files(&mut self, image: Option<RawImage>) -> (r: Result<
        Option<CapturedImage>,
        ImageError,
    >)
        ensures
            final(self).files is None,
            final(self).next_file_validation is None,
            final(self).last_file_error == old(self).last_file_error,
            match image {
                None => r == Ok::<Option<CapturedImage>, ImageError>(None)
                    && final(self).image is None,
                Some(image) => captures(image, old(self).image, r, final(self).image),
            },
    {
        self.files = None;
        self.next_file_validation = None;
        capture_image(image, &mut self.image)
    }

    /// Goes on without an image to the text on the clipboard; nothing where there is
    /// none, or an empty one.
    pub fn without_image(&mut self, text: Option<String>) -> (r: Option<String>)
        ensures
            r is Some <==> (text matches Some(text) && text@.len() > 0),
            r is Some ==> r == text && final(self).last_file_error is None,
            r is None ==> final(self).last_file_error == old(self).last_file_error,
            final(self).files == old(self).files,
            final(self).next_file_validation == old(self).next_file_validation,
            final(self).image == old(self).image,
    {
        match text {
            Some(text) => {
                if text.as_str().is_empty() {
                    return None;
                }
                self.last_file_error = None;
                Some(text)
            },
            None => None,
        }
    }
}

/// What was read of the clipboard.
pub enum Reading {
    /// The paths of copied files, if there is a list of them.
    Paths(Option<Vec<RelativePath>>),
    /// What was captured of those paths.
    Files { paths: Vec<RelativePath>, files: Arc<CapturedFiles> },
    /// Why nothing was captured of them.
    NoFiles { message: String },
    Image(Option<RawImage>),
    Text(Option<String>),
}

/// What comes of a reading.
pub enum Next {
    /// Capture the files with these paths.
    CaptureFiles(Vec<RelativePath>),
    /// Read the image; and announce why no files were captured, if that is new.
    ReadImage { announce: bool },
    ReadText,
    /// This is on the clipboard.
    Captured(CapturedPayload),
    /// The image is refused.
    Refused(ImageError),
    /// There is nothing that can be sent.
    Empty,
}

/// What comes of a reading, and what is remembered then. Files come first, unless
/// there are none or they cannot be captured; then an image; then a text.
pub open spec fn follows(
    before: CaptureCache,
    reading: Reading,
    now: u64,
    next: Next,
    after: CaptureCache,
) -> bool {
    match reading {
        Reading::Paths(paths) => {
            &&& after == before
            &&& if paths is None || paths->0@.len() == 0 {
                next == (Next::ReadImage { announce: false })
            } else if before.trusts(path_views(paths->0@), now) {
                &&& next matches Next::Captured(CapturedPayload::Files(files))
                &&& remembered(before.files) == Some((path_views(paths->0@), *files))
            } else {
                next == Next::CaptureFiles(paths->0)
            }
        },
        Reading::Files { paths, files } => {
            &&& next == Next::Captured(CapturedPayload::Files(files))
            &&& remembered(after.files) == Some((path_views(paths@), *files))
            &&& after.next_file_validation == Some((now + FILE_CACHE_VALIDATION_INTERVAL) as u64)
            &&& after.image == before.image
            &&& after.last_file_error is None
        },
        Reading::NoFiles { message } => {
            &&& next matches Next::ReadImage { announce }
            &&& announce == !(before.last_file_error matches Some(last) && last@ == message@)
            &&& after.last_file_error matches Some(last) && last@ == message@
            &&& after.files == before.files
            &&& after.next_file_validation == before.next_file_validation
            &&& after.image == before.image
        },
        Reading::Image(image) => {
            &&& after.files is None
            &&& after.next_file_validation is None
            &&& after.last_file_error == before.last_file_error
            &&& match image {
                None => next == Next::ReadText && after.image is None,
                Some(image) => match next {
                    Next::Captured(CapturedPayload::Image(captured)) => captures(
                        image,
                        before.image,
                        Ok(Some(captured)),
                        after.image,
                    ),
                    Next::Refused(error) => captures(
                        image,
                        before.image,
                        Err(error),
                        after.image,
                    ),
                    _ => false,
                },
            }
        },
        Reading::Text(text) => {
            &&& after.files == before.files
            &&& after.next_file_validation == before.next_file_validation
            &&& after.image == before.image
            &&& if text is Some && text->0@.len() > 0 {
                next == Next::Captured(CapturedPayload::Text(text->0)) && after.last_file_error
                    is None
            } else {
                next == Next::Empty && after.last_file_error == before.last_file_error
            }
        },
    }
}

impl CaptureCache {
    /// Takes what was read of the clipboard, and says what is captured, or what is
    /// tried next.
    pub fn capture_payload(&mut self, reading: Reading, now: u64) -> (next: Next)
        requires
            reading is Files ==> now + FILE_CACHE_VALIDATION_INTERVAL <= u64::MAX,
        ensures
            follows(*old(self), reading, now, next, *final(self)),
    {
        match reading {
            Reading::Paths(paths) => {
                let paths = match paths {
                    Some(paths) => paths,
                    None => {
                        return Next::ReadImage { announce: false };
                    },
                };
                if paths.len() == 0 {
                    return Next::ReadImage { announce: false };
                }
                match self.cached_files(&paths, now) {
                    Some(files) => Next::Captured(CapturedPayload::Files(files)),
                    None => Next::CaptureFiles(paths),
                }
            },
            Reading::Files { paths, files } => {
                let captured = files.clone();
                self.files_captured(paths, files, now);
                Next::Captured(CapturedPayload::Files(captured))
            },
            Reading::NoFiles { message } => {
                let announce = self.files_failed(message);
                Next::ReadImage { announce }
            },
            Reading::Image(image) => {
                match self.without_files(image) {
                    Ok(Some(image)) => Next::Captured(CapturedPayload::Image(image)),
                    Ok(None) => Next::ReadText,
                    Err(error) => Next::Refused(error),
                }
            },
            Reading::Text(text) => {
                match self.without_image(text) {
                    Some(text) => Next::Captured(CapturedPayload::Text(text)),
                    None => Next::Empty,
                }
            },
        }
    }
}

/// A text that another device put on this clipboard is known again when it is read
/// here, so that it is not sent as a new one.
pub proof fn law_applied_text_is_known_again(text: String)
    ensures
        CapturedPayload::Text(text).hash() == crate::fingerprint::payload_hash(
            PayloadView::Text(text@),
        ),
{
}

} // verus!
