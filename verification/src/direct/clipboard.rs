//! The clipboard in the direct mode: what is captured of it, and how it is sent.

use std::sync::Arc;
use vstd::prelude::*;
use vstd::string::StringExecFns;

use super::capture::{local_views, CapturedFiles};
use super::send::{FileSender, SendError, SendView};
use super::wire::{fingerprint, payload_hash, total_size, MessageView, WireMessage};
use crate::image::RawImage;
use crate::wire::{ClipboardPayload, PayloadView, MAX_TRANSFER_BYTES};

verus! {

/// What was read from the clipboard.
pub enum CapturedPayload {
    Text(ClipboardPayload),
    Image(ClipboardPayload),
    Files(Arc<CapturedFiles>),
}

impl CapturedPayload {
    /// Files make up a manifest.
    pub open spec fn wf(self) -> bool {
        self matches CapturedPayload::Files(files) ==> files.wf()
    }

    /// By what the clipboard is known again.
    pub open spec fn hash(self) -> u64 {
        match self {
            CapturedPayload::Text(payload) => payload_hash(payload@),
            CapturedPayload::Image(payload) => payload_hash(payload@),
            CapturedPayload::Files(files) => files.identity,
        }
    }
}

/// Why nothing is captured of a clipboard.
#[derive(Debug, Clone, Copy, PartialEq, Eq, Structural)]
pub enum ClipboardError {
    /// The image is too wide.
    Width,
    /// The image is too high.
    Height,
    /// There are no files, no image, and no text that is not empty.
    Empty,
}

/// Whether this is what is captured of a clipboard: its files, else its image, else its
/// text.
pub open spec fn captures(
    files: Option<CapturedFiles>,
    image: Option<RawImage>,
    text: Option<String>,
    r: Result<CapturedPayload, ClipboardError>,
) -> bool {
    match (files, image, text) {
        (Some(files), _, _) => r matches Ok(CapturedPayload::Files(found)) && *found == files,
        (None, Some(image), _) => if image.width > u32::MAX {
            r == Err::<CapturedPayload, ClipboardError>(ClipboardError::Width)
        } else if image.height > u32::MAX {
            r == Err::<CapturedPayload, ClipboardError>(ClipboardError::Height)
        } else {
            r matches Ok(CapturedPayload::Image(payload)) && payload@ == (PayloadView::Image {
                width: image.width as u32,
                height: image.height as u32,
                bytes: image.bytes@,
            })
        },
        (None, None, Some(text)) if text@.len() > 0 => r matches Ok(CapturedPayload::Text(payload))
            && payload@ == PayloadView::Text(text@),
        _ => r == Err::<CapturedPayload, ClipboardError>(ClipboardError::Empty),
    }
}

/// Captures a clipboard. What stands beside files does not matter, nor does a text
/// beside an image.
pub fn capture_payload(
    files: Option<CapturedFiles>,
    image: Option<RawImage>,
    text: Option<String>,
) -> (r: Result<CapturedPayload, ClipboardError>)
    ensures
        captures(files, image, text, r),
{
    match files {
        Some(files) => {
            return Ok(CapturedPayload::Files(Arc::new(files)));
        },
        None => {},
    }
    match image {
        Some(image) => {
            if image.width > u32::MAX as usize {
                return Err(ClipboardError::Width);
            }
            if image.height > u32::MAX as usize {
                return Err(ClipboardError::Height);
            }
            Ok(
                CapturedPayload::Image(
                    ClipboardPayload::Image {
                        width: image.width as u32,
                        height: image.height as u32,
                        bytes: image.bytes,
                    },
                ),
            )
        },
        None => match text {
            Some(text) => {
                if text.as_str().is_empty() {
                    Err(ClipboardError::Empty)
                } else {
                    Ok(CapturedPayload::Text(ClipboardPayload::Text(text)))
                }
            },
            None => Err(ClipboardError::Empty),
        },
    }
}

/// By what the clipboard is known again.
pub fn captured_fingerprint(payload: &CapturedPayload) -> (r: u64)
    ensures
        r == payload.hash(),
{
    match payload {
        CapturedPayload::Text(payload) => fingerprint(payload),
        CapturedPayload::Image(payload) => fingerprint(payload),
        CapturedPayload::Files(files) => files.identity,
    }
}

/// How the clipboard is sent.
pub enum Outgoing {
    /// In one message.
    Message(WireMessage),
    /// Beginning with this message.
    Files(FileSender, WireMessage),
    /// Not at all: the files are ones that were received. They count as sent.
    Nothing,
}

/// Why the clipboard cannot be sent.
#[derive(Debug, Clone, Copy, PartialEq, Eq, Structural)]
pub enum OutgoingError {
    Files(SendError),
}

/// Decides how the clipboard is sent: a text and an image in one message, files in
/// chunks, and files that were received not at all.
pub fn send_payload(id: &str, payload: CapturedPayload) -> (r: Result<Outgoing, OutgoingError>)
    requires
        payload.wf(),
    ensures
        match payload {
            CapturedPayload::Text(text) => r matches Ok(Outgoing::Message(message)) && message@ == (
            MessageView::Clipboard { id: id@, payload: text@ }),
            CapturedPayload::Image(image) => r matches Ok(Outgoing::Message(message)) && message@
                == (MessageView::Clipboard { id: id@, payload: image@ }),
            CapturedPayload::Files(files) => if files.internal {
                r == Ok::<Outgoing, OutgoingError>(Outgoing::Nothing)
            } else if total_size(files.manifest()) > u64::MAX {
                r == Err::<Outgoing, OutgoingError>(OutgoingError::Files(SendError::SizeOverflow))
            } else if total_size(files.manifest()) > MAX_TRANSFER_BYTES {
                r == Err::<Outgoing, OutgoingError>(OutgoingError::Files(SendError::TooLarge))
            } else {
                &&& r matches Ok(Outgoing::Files(sender, message))
                &&& sender.wf()
                &&& sender@ == (SendView {
                    id: id@,
                    entries: local_views(files.entries@),
                    position: 0,
                    file_index: 0,
                    sent: seq![],
                })
                &&& message@ == (MessageView::TransferStart {
                    id: id@,
                    fingerprint: files.identity,
                    entries: files.manifest(),
                })
            },
        },
{
    match payload {
        CapturedPayload::Text(payload) => Ok(
            Outgoing::Message(WireMessage::Clipboard { id: String::from_str(id), payload }),
        ),
        CapturedPayload::Image(payload) => Ok(
            Outgoing::Message(WireMessage::Clipboard { id: String::from_str(id), payload }),
        ),
        CapturedPayload::Files(files) => {
            if files.internal {
                return Ok(Outgoing::Nothing);
            }
            match FileSender::send_file_transfer(id, files) {
                Ok((sender, message)) => Ok(Outgoing::Files(sender, message)),
                Err(error) => Err(OutgoingError::Files(error)),
            }
        },
    }
}

} // verus!
