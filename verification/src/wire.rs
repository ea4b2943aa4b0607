//! What devices send each other, and the limits on it.

use vstd::prelude::*;

verus! {

/// The longest frame, in bytes.
pub const FRAME_LIMIT: usize = 4 * 1024 * 1024;

/// The longest chunk of a file or an image, in bytes.
pub const CHUNK_SIZE: usize = 1024 * 1024;

/// The largest file transfer, in bytes.
pub const MAX_TRANSFER_BYTES: u64 = 32 * 1024 * 1024 * 1024;

/// The longest manifest, in entries.
pub const MAX_MANIFEST_ENTRIES: usize = 100_000;

/// How many devices may be connected at once.
pub const MAX_PEERS: usize = 32;

/// How long a transfer may lie idle, in nanoseconds.
pub const SESSION_IDLE_TIMEOUT: u64 = 300_000_000_000;

/// The longest message identifier, in bytes.
pub const MAX_MESSAGE_ID_LEN: usize = 256;

/// How many file transfers may be under way at once.
pub const MAX_ACTIVE_TRANSFERS: usize = 16;

/// How many bytes the file transfers under way may announce together.
pub const MAX_ACTIVE_TRANSFER_BYTES: u64 = 64 * 1024 * 1024 * 1024;

/// How many image transfers may be under way at once.
pub const MAX_ACTIVE_IMAGES: usize = 4;

/// How many bytes the image transfers under way may announce together.
pub const MAX_ACTIVE_IMAGE_BYTES: u64 = 256 * 1024 * 1024;

/// How long a file list is trusted before it is looked at again, in nanoseconds.
pub const FILE_CACHE_VALIDATION_INTERVAL: u64 = 5_000_000_000;

/// After how long a leftover directory is removed, in seconds.
pub const CACHE_MAX_AGE: u64 = 7 * 24 * 60 * 60;

/// The version of the protocol.
pub const PROTOCOL_VERSION: u16 = 1;

/// A clipboard that fits one message.
#[derive(Debug, Clone, PartialEq, Eq)]
pub enum ClipboardPayload {
    Text(String),
    Image { width: u32, height: u32, bytes: Vec<u8> },
}

/// What a manifest entry is.
#[derive(Debug, Clone, Copy, PartialEq, Eq, Hash, Structural)]
pub enum TransferEntryKind {
    File,
    Directory,
}

/// One file or directory of a manifest.
#[derive(Debug, Clone, PartialEq, Eq)]
pub struct TransferEntry {
    /// The raw bytes of the path, so that names that are not UTF-8 survive.
    pub path: Vec<u8>,
    pub kind: TransferEntryKind,
    pub size: u64,
    pub mode: Option<u32>,
}

/// A manifest entry as a value.
pub ghost struct EntryView {
    pub path: Seq<u8>,
    pub kind: TransferEntryKind,
    pub size: u64,
    pub mode: Option<u32>,
}

impl View for TransferEntry {
    type V = EntryView;

    open spec fn view(&self) -> EntryView {
        EntryView { path: self.path@, kind: self.kind, size: self.size, mode: self.mode }
    }
}

/// The entries of a manifest as values.
pub open spec fn entry_views(entries: Seq<TransferEntry>) -> Seq<EntryView> {
    entries.map_values(|e: TransferEntry| e@)
}

/// One message between devices.
#[derive(Debug, Clone, PartialEq, Eq)]
pub enum WireMessage {
    Clipboard { id: String, payload: ClipboardPayload },
    TransferStart { id: String, entries: Vec<TransferEntry> },
    TransferChunk { id: String, file_index: u32, offset: u64, bytes: Vec<u8> },
    TransferFileEnd { id: String, file_index: u32, sha256: [u8; 32] },
    TransferEnd { id: String },
    TransferAbort { id: String },
    Hello { version: u16 },
    ImageStart { id: String, fingerprint: u64, width: u32, height: u32, size: u64 },
    ImageChunk { id: String, offset: u64, bytes: Vec<u8> },
    ImageEnd { id: String, sha256: [u8; 32] },
}

/// A clipboard as a value.
pub ghost enum PayloadView {
    Text(Seq<char>),
    Image { width: u32, height: u32, bytes: Seq<u8> },
}

impl View for ClipboardPayload {
    type V = PayloadView;

    open spec fn view(&self) -> PayloadView {
        match self {
            ClipboardPayload::Text(text) => PayloadView::Text(text@),
            ClipboardPayload::Image { width, height, bytes } => PayloadView::Image {
                width: *width,
                height: *height,
                bytes: bytes@,
            },
        }
    }
}

/// A message as a value.
pub ghost enum MessageView {
    Clipboard { id: Seq<char>, payload: PayloadView },
    TransferStart { id: Seq<char>, entries: Seq<EntryView> },
    TransferChunk { id: Seq<char>, file_index: u32, offset: u64, bytes: Seq<u8> },
    TransferFileEnd { id: Seq<char>, file_index: u32, sha256: Seq<u8> },
    TransferEnd { id: Seq<char> },
    TransferAbort { id: Seq<char> },
    Hello { version: u16 },
    ImageStart { id: Seq<char>, fingerprint: u64, width: u32, height: u32, size: u64 },
    ImageChunk { id: Seq<char>, offset: u64, bytes: Seq<u8> },
    ImageEnd { id: Seq<char>, sha256: Seq<u8> },
}

impl View for WireMessage {
    type V = MessageView;

    open spec fn view(&self) -> MessageView {
        match self {
            WireMessage::Clipboard { id, payload } => MessageView::Clipboard {
                id: id@,
                payload: payload@,
            },
            WireMessage::TransferStart { id, entries } => MessageView::TransferStart {
                id: id@,
                entries: entry_views(entries@),
            },
            WireMessage::TransferChunk { id, file_index, offset, bytes } => {
                MessageView::TransferChunk {
                    id: id@,
                    file_index: *file_index,
                    offset: *offset,
                    bytes: bytes@,
                }
            },
            WireMessage::TransferFileEnd { id, file_index, sha256 } => {
                MessageView::TransferFileEnd {
                    id: id@,
                    file_index: *file_index,
                    sha256: sha256@,
                }
            },
            WireMessage::TransferEnd { id } => MessageView::TransferEnd { id: id@ },
            WireMessage::TransferAbort { id } => MessageView::TransferAbort { id: id@ },
            WireMessage::Hello { version } => MessageView::Hello { version: *version },
            WireMessage::ImageStart { id, fingerprint, width, height, size } => {
                MessageView::ImageStart {
                    id: id@,
                    fingerprint: *fingerprint,
                    width: *width,
                    height: *height,
                    size: *size,
                }
            },
            WireMessage::ImageChunk { id, offset, bytes } => MessageView::ImageChunk {
                id: id@,
                offset: *offset,
                bytes: bytes@,
            },
            WireMessage::ImageEnd { id, sha256 } => MessageView::ImageEnd {
                id: id@,
                sha256: sha256@,
            },
        }
    }
}

/// What reaches the session from the connections.
#[derive(Debug, Clone, PartialEq, Eq)]
pub enum IncomingEvent {
    Message { peer_id: u64, message: WireMessage },
    Disconnected { peer_id: u64 },
}

/// The bytes that the entries announce together.
pub open spec fn total_size(entries: Seq<EntryView>) -> nat
    decreases entries.len(),
{
    if entries.len() == 0 {
        0
    } else {
        total_size(entries.drop_last()) + entries.last().size as nat
    }
}

/// A shorter manifest announces no more.
pub proof fn lemma_total_size_take(entries: Seq<EntryView>, n: int)
    requires
        0 <= n <= entries.len(),
    ensures
        total_size(entries.take(n)) <= total_size(entries),
    decreases entries.len(),
{
    if n < entries.len() {
        lemma_total_size_take(entries.drop_last(), n);
        assert(entries.drop_last().take(n) == entries.take(n));
    } else {
        assert(entries.take(n) == entries);
    }
}

/// Adds up what the entries announce; nothing where the sum does not fit.
pub fn checked_total(entries: &Vec<TransferEntry>) -> (total: Option<u64>)
    ensures
        total is Some <==> total_size(entry_views(entries@)) <= u64::MAX,
        total matches Some(total) ==> total == total_size(entry_views(entries@)),
{
    let ghost all = entry_views(entries@);
    let mut total: u64 = 0;
    let mut i: usize = 0;
    while i < entries.len()
        invariant
            all == entry_views(entries@),
            i <= entries@.len(),
            total == total_size(all.take(i as int)),
        decreases entries@.len() - i,
    {
        proof {
            assert(all.take(i as int + 1).drop_last() == all.take(i as int));
            lemma_total_size_take(all, i as int + 1);
        }
        match total.checked_add(entries[i].size) {
            Some(sum) => {
                total = sum;
            },
            None => {
                return None;
            },
        }
        i += 1;
    }
    proof {
        assert(all.take(entries@.len() as int) == all);
    }
    Some(total)
}

} // verus!
