//! The session: what every message from another device does, and what of the
//! clipboard is sent to whom.
//!
//! The session decides. It says what is to be done on disk and to the clipboard,
//! and is told what came of it.

use std::collections::HashSet;
use vstd::prelude::*;
use vstd::string::StringExecFns;
use vstd::utf8::encode_utf8;

use crate::fingerprint::{fingerprint, payload_hash, transfer_directory};
use crate::image::{IncomingImage, ImageError, ImageView};
use crate::manifest::{manifest_fault, ManifestError};
use crate::image::start_fault;
use crate::progress::TransferError;
use crate::receive::{started, IncomingTransfer, TransferView};
use crate::seen::{law_seen_ids, seen_after, SeenIds, MAX_SEEN};
use crate::sessions::{
    announced, distinct, dropped, is_active, kept, lemma_kept, lemma_place, lemma_push,
    lemma_update, lemma_without, place, without, DropRule, Session, SessionKey, SessionTable,
    SessionView,
};
use crate::text::{decimal, decimal_text, lemma_decimal_injective, same_text};
use crate::wire::{
    checked_total, entry_views, total_size, ClipboardPayload, EntryView, IncomingEvent, MessageView,
    PayloadView, TransferEntry, WireMessage, MAX_ACTIVE_IMAGES, MAX_ACTIVE_IMAGE_BYTES,
    MAX_ACTIVE_TRANSFERS, MAX_ACTIVE_TRANSFER_BYTES, MAX_MESSAGE_ID_LEN,
};

verus! {

/// Why a message has no effect, or ends a transfer.
#[derive(Debug, Clone, Copy, PartialEq, Eq, Structural)]
pub enum Refusal {
    TooManyTransfers,
    TransferSizeOverflow,
    TooManyTransferBytes,
    Manifest(ManifestError),
    Chunk(TransferError),
    FileEnd(TransferError),
    UnknownTransfer,
    TransferEnd(TransferError),
    TooManyImages,
    TooManyImageBytes,
    ImageStart(ImageError),
    ImageChunk(ImageError),
    UnknownImage,
    ImageEnd(ImageError),
}

/// What is to be done about a message.
pub enum Action {
    Ignore,
    Refuse(Refusal),
    /// Put this on the clipboard, and call `clipboard_applied` once it is there.
    Apply { id: String, fingerprint: u64, payload: ClipboardPayload },
    /// Make the directories of the transfer.
    Begin,
    /// An image is coming in.
    BeginImage,
    /// Write these bytes to the end of the file of this entry, which may have to be
    /// made.
    Write { entry: usize, create: bool, bytes: Vec<u8> },
    /// Put the file of this entry, which may have to be made, in its place.
    Commit { entry: usize, create: bool },
    Took,
    /// Finish the transfer and put its roots on the clipboard.
    Finish { id: String, transfer: IncomingTransfer },
    Aborted,
}

/// What is to be done, as a value.
pub ghost enum ActionView {
    Ignore,
    Refuse(Refusal),
    Apply { id: Seq<char>, fingerprint: u64, payload: PayloadView },
    Begin,
    BeginImage,
    Write { entry: int, create: bool, bytes: Seq<u8> },
    Commit { entry: int, create: bool },
    Took,
    Finish { id: Seq<char>, transfer: TransferView },
    Aborted,
}

impl View for Action {
    type V = ActionView;

    open spec fn view(&self) -> ActionView {
        match self {
            Action::Ignore => ActionView::Ignore,
            Action::Refuse(refusal) => ActionView::Refuse(*refusal),
            Action::Apply { id, fingerprint, payload } => ActionView::Apply {
                id: id@,
                fingerprint: *fingerprint,
                payload: payload@,
            },
            Action::Begin => ActionView::Begin,
            Action::BeginImage => ActionView::BeginImage,
            Action::Write { entry, create, bytes } => ActionView::Write {
                entry: *entry as int,
                create: *create,
                bytes: bytes@,
            },
            Action::Commit { entry, create } => ActionView::Commit {
                entry: *entry as int,
                create: *create,
            },
            Action::Took => ActionView::Took,
            Action::Finish { id, transfer } => ActionView::Finish { id: id@, transfer: transfer@ },
            Action::Aborted => ActionView::Aborted,
        }
    }
}

/// What comes of a message: the directories to remove first, and what is to be
/// done then.
pub struct Outcome {
    pub removed: Vec<String>,
    pub action: Action,
}

/// The session as a value.
pub ghost struct StateView {
    pub origin: Seq<char>,
    pub sequence: u64,
    pub last_fingerprint: Option<u64>,
    pub sent_peers: Set<u64>,
    pub capture_error: Option<Seq<char>>,
    pub send_error: Option<Seq<char>>,
    pub completed: Seq<Seq<char>>,
    pub transfers: Seq<SessionView<TransferView>>,
    pub images: Seq<SessionView<ImageView>>,
}

/// What comes of a message, and the session after it.
pub ghost struct OutcomeView {
    pub state: StateView,
    pub removed: Seq<Seq<char>>,
    pub action: ActionView,
}

/// The views of a list of names.
pub open spec fn texts(names: Seq<String>) -> Seq<Seq<char>> {
    names.map_values(|s: String| s@)
}

/// The directories of transfers.
pub open spec fn directories(sessions: Seq<SessionView<TransferView>>) -> Seq<Seq<char>> {
    sessions.map_values(|s: SessionView<TransferView>| s.item.directory)
}

/// Whether a message may be known by this identifier.
pub open spec fn valid_id(id: Seq<char>) -> bool {
    0 < encode_utf8(id).len() <= MAX_MESSAGE_ID_LEN
}

/// Whether a message may be known by this identifier: it is not empty, and not too
/// long in UTF-8.
pub fn valid_message_id(id: &str) -> (r: bool)
    ensures
        r == valid_id(id@),
{
    let length: usize = id.as_bytes().len();
    length > 0 && length <= MAX_MESSAGE_ID_LEN
}

impl StateView {
    /// What holds of every session: transfers have distinct keys, are not too many
    /// and not too large together, and no identifier is remembered twice.
    pub open spec fn valid(self) -> bool {
        &&& self.completed.no_duplicates()
        &&& self.completed.len() <= MAX_SEEN
        &&& distinct(self.transfers)
        &&& self.transfers.len() <= MAX_ACTIVE_TRANSFERS
        &&& announced(self.transfers) <= MAX_ACTIVE_TRANSFER_BYTES
        &&& forall|i: int|
            0 <= i < self.transfers.len() ==> (#[trigger] self.transfers[i]).size == total_size(
                self.transfers[i].item.entries,
            )
        &&& distinct(self.images)
        &&& self.images.len() <= MAX_ACTIVE_IMAGES
        &&& announced(self.images) <= MAX_ACTIVE_IMAGE_BYTES
        &&& forall|i: int|
            0 <= i < self.images.len() ==> (#[trigger] self.images[i]).size
                == self.images[i].item.expected
    }

    /// Whether a message with this identifier is still of interest.
    pub open spec fn open_id(self, id: Seq<char>) -> bool {
        valid_id(id) && !self.completed.contains(id)
    }

    /// Nothing is removed.
    pub open spec fn with(self, action: ActionView) -> OutcomeView {
        OutcomeView { state: self, removed: seq![], action }
    }

    /// Without one file transfer.
    pub open spec fn without_transfer(self, peer: u64, id: Seq<char>) -> StateView {
        StateView { transfers: without(self.transfers, peer, id), ..self }
    }

    /// The directory of a file transfer, if it is under way.
    pub open spec fn directory_of(self, peer: u64, id: Seq<char>) -> Seq<Seq<char>> {
        if is_active(self.transfers, peer, id) {
            seq![self.transfers[place(self.transfers, peer, id)].item.directory]
        } else {
            seq![]
        }
    }

    /// A clipboard comes in one message.
    pub open spec fn on_clipboard(self, id: Seq<char>, payload: PayloadView) -> OutcomeView {
        if !self.open_id(id) {
            self.with(ActionView::Ignore)
        } else {
            self.with(ActionView::Apply { id, fingerprint: payload_hash(payload), payload })
        }
    }

    /// The name of the directory that a transfer is put in.
    pub open spec fn directory_name(self, peer: u64, id: Seq<char>) -> Seq<char> {
        transfer_directory((self.origin.push('-') + decimal(peer as nat)).push('-') + id)
    }

    /// A file transfer begins. One of the same key that is under way is given up
    /// first.
    pub open spec fn on_transfer_start(
        self,
        peer: u64,
        id: Seq<char>,
        entries: Seq<EntryView>,
        now: u64,
    ) -> OutcomeView {
        let rest = self.without_transfer(peer, id);
        let removed = self.directory_of(peer, id);
        if !self.open_id(id) {
            self.with(ActionView::Ignore)
        } else if rest.transfers.len() >= MAX_ACTIVE_TRANSFERS {
            OutcomeView { removed, ..rest.with(ActionView::Refuse(Refusal::TooManyTransfers)) }
        } else if total_size(entries) > u64::MAX {
            OutcomeView { removed, ..rest.with(ActionView::Refuse(Refusal::TransferSizeOverflow)) }
        } else if announced(rest.transfers) + total_size(entries) > MAX_ACTIVE_TRANSFER_BYTES {
            OutcomeView { removed, ..rest.with(ActionView::Refuse(Refusal::TooManyTransferBytes)) }
        } else {
            match manifest_fault(entries) {
                Some(error) => OutcomeView {
                    removed,
                    ..rest.with(ActionView::Refuse(Refusal::Manifest(error)))
                },
                None => {
                    let session = SessionView {
                        peer,
                        id,
                        last: now,
                        size: total_size(entries) as u64,
                        item: started(self.directory_name(peer, id), entries),
                    };
                    OutcomeView {
                        state: StateView { transfers: rest.transfers.push(session), ..rest },
                        removed,
                        action: ActionView::Begin,
                    }
                },
            }
        }
    }

    /// A chunk of a file comes in. A chunk that is refused ends the transfer.
    pub open spec fn on_transfer_chunk(
        self,
        peer: u64,
        id: Seq<char>,
        index: u32,
        offset: u64,
        bytes: Seq<u8>,
        now: u64,
    ) -> OutcomeView {
        let at = place(self.transfers, peer, id);
        let session = self.transfers[at];
        if !self.open_id(id) || !is_active(self.transfers, peer, id) {
            self.with(ActionView::Ignore)
        } else {
            match session.item.chunk_fault(index, offset, bytes) {
                Some(error) => OutcomeView {
                    state: self.without_transfer(peer, id),
                    removed: self.directory_of(peer, id),
                    action: ActionView::Refuse(Refusal::Chunk(error)),
                },
                None => OutcomeView {
                    state: StateView {
                        transfers: self.transfers.update(
                            at,
                            SessionView {
                                last: now,
                                item: session.item.with_chunk(index, bytes),
                                ..session
                            },
                        ),
                        ..self
                    },
                    removed: seq![],
                    action: ActionView::Write {
                        entry: session.item.files[index as int].entry,
                        create: offset == 0,
                        bytes,
                    },
                },
            }
        }
    }

    /// A file ends. An end that is refused ends the transfer.
    pub open spec fn on_file_end(
        self,
        peer: u64,
        id: Seq<char>,
        index: u32,
        digest: Seq<u8>,
        now: u64,
    ) -> OutcomeView {
        let at = place(self.transfers, peer, id);
        let session = self.transfers[at];
        if !self.open_id(id) || !is_active(self.transfers, peer, id) {
            self.with(ActionView::Ignore)
        } else {
            match session.item.end_fault(index, digest) {
                Some(error) => OutcomeView {
                    state: self.without_transfer(peer, id),
                    removed: self.directory_of(peer, id),
                    action: ActionView::Refuse(Refusal::FileEnd(error)),
                },
                None => OutcomeView {
                    state: StateView {
                        transfers: self.transfers.update(
                            at,
                            SessionView { last: now, item: session.item.with_end(index), ..session },
                        ),
                        ..self
                    },
                    removed: seq![],
                    action: ActionView::Commit {
                        entry: session.item.files[index as int].entry,
                        create: session.item.files[index as int].received.len() == 0,
                    },
                },
            }
        }
    }

    /// A file transfer ends. It is over in any case; it is finished if every file is.
    pub open spec fn on_transfer_end(self, peer: u64, id: Seq<char>) -> OutcomeView {
        let session = self.transfers[place(self.transfers, peer, id)];
        if !valid_id(id) {
            self.with(ActionView::Ignore)
        } else if self.completed.contains(id) {
            OutcomeView {
                removed: self.directory_of(peer, id),
                ..self.without_transfer(peer, id).with(ActionView::Ignore)
            }
        } else if !is_active(self.transfers, peer, id) {
            self.with(ActionView::Refuse(Refusal::UnknownTransfer))
        } else if session.item.complete() {
            self.without_transfer(peer, id).with(
                ActionView::Finish { id, transfer: session.item },
            )
        } else {
            OutcomeView {
                removed: self.directory_of(peer, id),
                ..self.without_transfer(peer, id).with(
                    ActionView::Refuse(Refusal::TransferEnd(TransferError::Unfinished)),
                )
            }
        }
    }

    /// A device takes a transfer back, of files or of an image.
    pub open spec fn on_abort(self, peer: u64, id: Seq<char>) -> OutcomeView {
        OutcomeView {
            state: StateView {
                images: without(self.images, peer, id),
                ..self.without_transfer(peer, id)
            },
            removed: self.directory_of(peer, id),
            action: ActionView::Aborted,
        }
    }

    /// An image begins. One of the same key that is under way still counts towards
    /// the limits, and is then replaced.
    pub open spec fn on_image_start(
        self,
        peer: u64,
        id: Seq<char>,
        fingerprint: u64,
        width: u32,
        height: u32,
        size: u64,
        now: u64,
    ) -> OutcomeView {
        if !self.open_id(id) {
            self.with(ActionView::Ignore)
        } else if self.images.len() >= MAX_ACTIVE_IMAGES {
            self.with(ActionView::Refuse(Refusal::TooManyImages))
        } else if announced(self.images) + size > MAX_ACTIVE_IMAGE_BYTES {
            self.with(ActionView::Refuse(Refusal::TooManyImageBytes))
        } else {
            match start_fault(width, height, size) {
                Some(error) => self.with(ActionView::Refuse(Refusal::ImageStart(error))),
                None => {
                    let session = SessionView {
                        peer,
                        id,
                        last: now,
                        size,
                        item: ImageView::started(fingerprint, width, height, size),
                    };
                    StateView {
                        images: without(self.images, peer, id).push(session),
                        ..self
                    }.with(ActionView::BeginImage)
                },
            }
        }
    }

    /// A chunk of an image comes in. A chunk that is refused ends the image.
    pub open spec fn on_image_chunk(
        self,
        peer: u64,
        id: Seq<char>,
        offset: u64,
        bytes: Seq<u8>,
        now: u64,
    ) -> OutcomeView {
        let at = place(self.images, peer, id);
        let session = self.images[at];
        if !self.open_id(id) || !is_active(self.images, peer, id) {
            self.with(ActionView::Ignore)
        } else {
            match session.item.chunk_fault(offset, bytes) {
                Some(error) => StateView { images: without(self.images, peer, id), ..self }.with(
                    ActionView::Refuse(Refusal::ImageChunk(error)),
                ),
                None => StateView {
                    images: self.images.update(
                        at,
                        SessionView { last: now, item: session.item.with_chunk(bytes), ..session },
                    ),
                    ..self
                }.with(ActionView::Took),
            }
        }
    }

    /// An image ends. It is over in any case; if it is sound it goes on the
    /// clipboard.
    pub open spec fn on_image_end(self, peer: u64, id: Seq<char>, digest: Seq<u8>) -> OutcomeView {
        let item = self.images[place(self.images, peer, id)].item;
        let rest = StateView { images: without(self.images, peer, id), ..self };
        if !valid_id(id) {
            self.with(ActionView::Ignore)
        } else if self.completed.contains(id) {
            rest.with(ActionView::Ignore)
        } else if !is_active(self.images, peer, id) {
            self.with(ActionView::Refuse(Refusal::UnknownImage))
        } else {
            match item.finish_fault(digest) {
                Some(error) => rest.with(ActionView::Refuse(Refusal::ImageEnd(error))),
                None => rest.with(
                    ActionView::Apply { id, fingerprint: item.fingerprint, payload: item.payload() },
                ),
            }
        }
    }

    /// A message comes from a device.
    pub open spec fn on_message(self, peer: u64, message: MessageView, now: u64) -> OutcomeView {
        match message {
            MessageView::Hello { version } => self.with(ActionView::Ignore),
            MessageView::Clipboard { id, payload } => self.on_clipboard(id, payload),
            MessageView::TransferStart { id, entries } => self.on_transfer_start(
                peer,
                id,
                entries,
                now,
            ),
            MessageView::TransferChunk { id, file_index, offset, bytes } => self.on_transfer_chunk(
                peer,
                id,
                file_index,
                offset,
                bytes,
                now,
            ),
            MessageView::TransferFileEnd { id, file_index, sha256 } => self.on_file_end(
                peer,
                id,
                file_index,
                sha256,
                now,
            ),
            MessageView::TransferEnd { id } => self.on_transfer_end(peer, id),
            MessageView::TransferAbort { id } => self.on_abort(peer, id),
            MessageView::ImageStart { id, fingerprint, width, height, size } => self.on_image_start(
                peer,
                id,
                fingerprint,
                width,
                height,
                size,
                now,
            ),
            MessageView::ImageChunk { id, offset, bytes } => self.on_image_chunk(
                peer,
                id,
                offset,
                bytes,
                now,
            ),
            MessageView::ImageEnd { id, sha256 } => self.on_image_end(peer, id, sha256),
        }
    }

    /// A device is gone: its transfers are given up, and should it come back, the
    /// clipboard is sent to it again.
    pub open spec fn on_disconnect(self, peer_id: u64) -> OutcomeView {
        let rule = DropRule::Peer { peer_id };
        OutcomeView {
            state: StateView {
                sent_peers: self.sent_peers.remove(peer_id),
                transfers: kept(self.transfers, rule),
                images: kept(self.images, rule),
                ..self
            },
            removed: directories(dropped(self.transfers, rule)),
            action: ActionView::Ignore,
        }
    }

    /// What comes of an event.
    pub open spec fn on_event(self, event: IncomingEvent, now: u64) -> OutcomeView {
        match event {
            IncomingEvent::Message { peer_id, message } => self.on_message(peer_id, message@, now),
            IncomingEvent::Disconnected { peer_id } => self.on_disconnect(peer_id),
        }
    }

    /// The transfers that have been idle for too long are given up.
    pub open spec fn expired(self, now: u64) -> StateView {
        let rule = DropRule::Idle { now };
        StateView {
            transfers: kept(self.transfers, rule),
            images: kept(self.images, rule),
            ..self
        }
    }

    /// What came from a device was put on the clipboard: it is not sent back there.
    pub open spec fn remote_applied(self, fingerprint: u64, peer_id: u64) -> StateView {
        StateView {
            sent_peers: if self.last_fingerprint == Some(fingerprint) {
                self.sent_peers.insert(peer_id)
            } else {
                Set::<u64>::empty().insert(peer_id)
            },
            last_fingerprint: Some(fingerprint),
            send_error: None,
            ..self
        }
    }

    /// The identifier of the next message.
    pub open spec fn next_message_id(self) -> Seq<char> {
        message_id(self.origin, self.next_sequence() as nat)
    }

    /// The number of the next message; the last number there is stays the last.
    pub open spec fn next_sequence(self) -> u64 {
        if self.sequence < u64::MAX {
            (self.sequence + 1) as u64
        } else {
            self.sequence
        }
    }

    /// The devices that have the clipboard with this fingerprint.
    pub open spec fn have(self, fingerprint: u64) -> Set<u64> {
        if self.last_fingerprint == Some(fingerprint) {
            self.sent_peers
        } else {
            Set::empty()
        }
    }
}

/// The identifier of a device's message.
pub open spec fn message_id(origin: Seq<char>, number: nat) -> Seq<char> {
    origin.push('-') + decimal(number)
}

/// The devices of a list that are not in a set, in order.
pub open spec fn missing(peers: Seq<u64>, have: Set<u64>) -> Seq<u64>
    decreases peers.len(),
{
    if peers.len() == 0 {
        seq![]
    } else if have.contains(peers.last()) {
        missing(peers.drop_last(), have)
    } else {
        missing(peers.drop_last(), have).push(peers.last())
    }
}

/// A text as a value, if there is one.
pub open spec fn text_view(text: Option<String>) -> Option<Seq<char>> {
    match text {
        Some(text) => Some(text@),
        None => None,
    }
}

/// The session.
pub struct SyncState {
    pub origin: String,
    pub sequence: u64,
    pub last_fingerprint: Option<u64>,
    pub sent_peers: HashSet<u64>,
    pub last_capture_error: Option<String>,
    pub last_send_error: Option<String>,
    pub completed: SeenIds,
    pub active_transfers: SessionTable<IncomingTransfer>,
    pub active_images: SessionTable<IncomingImage>,
}

impl View for SyncState {
    type V = StateView;

    open spec fn view(&self) -> StateView {
        StateView {
            origin: self.origin@,
            sequence: self.sequence,
            last_fingerprint: self.last_fingerprint,
            sent_peers: self.sent_peers@,
            capture_error: text_view(self.last_capture_error),
            send_error: text_view(self.last_send_error),
            completed: self.completed@,
            transfers: self.active_transfers@,
            images: self.active_images@,
        }
    }
}

fn ignore() -> (outcome: Outcome)
    ensures
        texts(outcome.removed@) == Seq::<Seq<char>>::empty(),
        outcome.action@ == ActionView::Ignore,
{
    let outcome = Outcome { removed: Vec::new(), action: Action::Ignore };
    proof {
        assert(texts(outcome.removed@) == Seq::<Seq<char>>::empty());
    }
    outcome
}

fn act(action: Action) -> (outcome: Outcome)
    ensures
        texts(outcome.removed@) == Seq::<Seq<char>>::empty(),
        outcome.action == action,
{
    let outcome = Outcome { removed: Vec::new(), action };
    proof {
        assert(texts(outcome.removed@) == Seq::<Seq<char>>::empty());
    }
    outcome
}

impl SyncState {
    /// The session is valid, and so is every transfer under way.
    pub open spec fn wf(self) -> bool {
        &&& self@.valid()
        &&& self.completed.wf()
        &&& forall|i: int|
            0 <= i < self.active_transfers.items@.len() ==> (
            #[trigger] self.active_transfers.items@[i]).item.wf()
        &&& forall|i: int|
            0 <= i < self.active_images.items@.len() ==> (
            #[trigger] self.active_images.items@[i]).item.wf()
    }

    /// A new session. Its messages are known by the number of the process and the
    /// time at which it began.
    pub fn new(process_id: u32, nanos: u128) -> (state: SyncState)
        ensures
            state.wf(),
            state@ == (StateView {
                origin: decimal(process_id as nat).push('-') + decimal(nanos as nat),
                sequence: 0,
                last_fingerprint: None,
                sent_peers: Set::empty(),
                capture_error: None,
                send_error: None,
                completed: seq![],
                transfers: seq![],
                images: seq![],
            }),
    {
        let mut origin = decimal_text(process_id as u128);
        origin.push('-');
        let time = decimal_text(nanos);
        origin.append(time.as_str());
        SyncState {
            origin,
            sequence: 0,
            last_fingerprint: None,
            sent_peers: HashSet::new(),
            last_capture_error: None,
            last_send_error: None,
            completed: SeenIds::default(),
            active_transfers: SessionTable::new(),
            active_images: SessionTable::new(),
        }
    }

    /// The identifier of the next message.
    pub fn next_id(&mut self) -> (id: String)
        requires
            old(self).wf(),
        ensures
            final(self).wf(),
            id@ == old(self)@.next_message_id(),
            final(self)@ == (StateView { sequence: old(self)@.next_sequence(), ..old(self)@ }),
    {
        if self.sequence < u64::MAX {
            self.sequence = self.sequence + 1;
        }
        let mut id = self.origin.clone();
        id.push('-');
        let number = decimal_text(self.sequence as u128);
        id.append(number.as_str());
        id
    }

    /// Whether a message with this identifier is still of interest.
    fn is_open(&self, id: &str) -> (r: bool)
        requires
            self.wf(),
        ensures
            r == self@.open_id(id@),
    {
        valid_message_id(id) && !self.completed.contains(id)
    }

    /// Gives a file transfer up, and names its directory, which is to be removed.
    pub fn remove_transfer(&mut self, peer_id: u64, id: &str) -> (removed: Vec<String>)
        requires
            old(self).wf(),
        ensures
            final(self).wf(),
            final(self)@ == old(self)@.without_transfer(peer_id, id@),
            texts(removed@) == old(self)@.directory_of(peer_id, id@),
    {
        let ghost before = *self;
        proof {
            lemma_without(self@.transfers, peer_id, id@);
            lemma_place(self@.transfers, peer_id, id@);
        }
        let mut removed: Vec<String> = Vec::new();
        match self.active_transfers.remove(peer_id, id) {
            Some(session) => {
                removed.push(String::from_str(session.item.directory()));
                proof {
                    let at = place(before@.transfers, peer_id, id@);
                    assert(before@.transfers[at] == session@);
                    assert(texts(removed@) == seq![session@.item.directory]);
                    assert forall|i: int| 0 <= i < self.active_transfers.items@.len() implies (
                    #[trigger] self.active_transfers.items@[i]).item.wf() by {
                        let k = if i < at {
                            i
                        } else {
                            i + 1
                        };
                        assert(self.active_transfers.items@[i] == before.active_transfers.items@[k]);
                    }
                    assert forall|i: int| 0 <= i < self@.transfers.len() implies (
                    #[trigger] self@.transfers[i]).size == total_size(
                        self@.transfers[i].item.entries,
                    ) by {
                        let k = if i < at {
                            i
                        } else {
                            i + 1
                        };
                        assert(self@.transfers[i] == before@.transfers[k]);
                    }
                }
            },
            None => {
                proof {
                    assert(texts(removed@) == Seq::<Seq<char>>::empty());
                    assert forall|i: int| 0 <= i < self.active_transfers.items@.len() implies (
                    #[trigger] self.active_transfers.items@[i]).item.wf() by {
                        assert(self.active_transfers.items@[i] == before.active_transfers.items@[i]);
                    }
                }
            },
        }
        removed
    }

    /// Gives an image up.
    fn remove_image(&mut self, peer_id: u64, id: &str) -> (r: Option<IncomingImage>)
        requires
            old(self).wf(),
        ensures
            final(self).wf(),
            final(self)@ == (StateView {
                images: without(old(self)@.images, peer_id, id@),
                ..old(self)@
            }),
            r is Some <==> is_active(old(self)@.images, peer_id, id@),
            r matches Some(image) ==> image.wf() && image@ == old(self)@.images[place(
                old(self)@.images,
                peer_id,
                id@,
            )].item,
    {
        let ghost before = *self;
        proof {
            lemma_without(self@.images, peer_id, id@);
            lemma_place(self@.images, peer_id, id@);
        }
        let ghost at = place(before@.images, peer_id, id@);
        match self.active_images.remove(peer_id, id) {
            Some(session) => {
                proof {
                    assert(before@.images[at] == session@);
                    assert(before.active_images.items@[at].item.wf());
                    assert forall|i: int| 0 <= i < self.active_images.items@.len() implies (
                    #[trigger] self.active_images.items@[i]).item.wf() by {
                        let k = if i < at {
                            i
                        } else {
                            i + 1
                        };
                        assert(self.active_images.items@[i] == before.active_images.items@[k]);
                    }
                    assert forall|i: int| 0 <= i < self@.images.len() implies (
                    #[trigger] self@.images[i]).size == self@.images[i].item.expected by {
                        let k = if i < at {
                            i
                        } else {
                            i + 1
                        };
                        assert(self@.images[i] == before@.images[k]);
                    }
                }
                Some(session.item)
            },
            None => {
                proof {
                    assert forall|i: int| 0 <= i < self.active_images.items@.len() implies (
                    #[trigger] self.active_images.items@[i]).item.wf() by {
                        assert(self.active_images.items@[i] == before.active_images.items@[i]);
                    }
                }
                None
            },
        }
    }
}

impl SyncState {
    fn on_clipboard(&self, id: String, payload: ClipboardPayload) -> (r: Outcome)
        requires
            self.wf(),
        ensures
            texts(r.removed@) == self@.on_clipboard(id@, payload@).removed,
            r.action@ == self@.on_clipboard(id@, payload@).action,
    {
        if !self.is_open(id.as_str()) {
            return ignore();
        }
        let hash: u64 = fingerprint(&payload);
        act(Action::Apply { id, fingerprint: hash, payload })
    }

    fn on_transfer_start(
        &mut self,
        peer_id: u64,
        id: String,
        entries: Vec<TransferEntry>,
        now: u64,
    ) -> (r: Outcome)
        requires
            old(self).wf(),
        ensures
            final(self).wf(),
            ({
                let wanted = old(self)@.on_transfer_start(
                    peer_id,
                    id@,
                    entry_views(entries@),
                    now,
                );
                &&& final(self)@ == wanted.state
                &&& texts(r.removed@) == wanted.removed
                &&& r.action@ == wanted.action
            }),
    {
        if !self.is_open(id.as_str()) {
            return ignore();
        }
        proof {
            lemma_without(self@.transfers, peer_id, id@);
        }
        let removed = self.remove_transfer(peer_id, id.as_str());
        if self.active_transfers.items.len() >= MAX_ACTIVE_TRANSFERS {
            return Outcome { removed, action: Action::Refuse(Refusal::TooManyTransfers) };
        }
        let size: u64 = match checked_total(&entries) {
            Some(size) => size,
            None => {
                return Outcome { removed, action: Action::Refuse(Refusal::TransferSizeOverflow) };
            },
        };
        let active: u64 = self.active_transfers.total();
        if size > MAX_ACTIVE_TRANSFER_BYTES - active {
            return Outcome { removed, action: Action::Refuse(Refusal::TooManyTransferBytes) };
        }
        let mut scope = self.origin.clone();
        scope.push('-');
        let number = decimal_text(peer_id as u128);
        scope.append(number.as_str());
        match IncomingTransfer::start(id.as_str(), scope.as_str(), entries) {
            Err(error) => Outcome { removed, action: Action::Refuse(Refusal::Manifest(error)) },
            Ok(transfer) => {
                let ghost before = *self;
                let session = Session {
                    key: SessionKey::new(peer_id, id),
                    last_activity: now,
                    size,
                    item: transfer,
                };
                self.active_transfers.push(session);
                proof {
                    lemma_push(before@.transfers, session@);
                    assert forall|i: int| 0 <= i < self@.transfers.len() implies (
                    #[trigger] self@.transfers[i]).size == total_size(
                        self@.transfers[i].item.entries,
                    ) by {
                        if i < before@.transfers.len() {
                            assert(self@.transfers[i] == before@.transfers[i]);
                        }
                    }
                    assert forall|i: int| 0 <= i < self.active_transfers.items@.len() implies (
                    #[trigger] self.active_transfers.items@[i]).item.wf() by {
                        if i < before.active_transfers.items@.len() {
                            assert(self.active_transfers.items@[i]
                                == before.active_transfers.items@[i]);
                        }
                    }
                }
                Outcome { removed, action: Action::Begin }
            },
        }
    }

    fn on_transfer_chunk(
        &mut self,
        peer_id: u64,
        id: String,
        file_index: u32,
        offset: u64,
        bytes: Vec<u8>,
        now: u64,
    ) -> (r: Outcome)
        requires
            old(self).wf(),
        ensures
            final(self).wf(),
            ({
                let wanted = old(self)@.on_transfer_chunk(
                    peer_id,
                    id@,
                    file_index,
                    offset,
                    bytes@,
                    now,
                );
                &&& final(self)@ == wanted.state
                &&& texts(r.removed@) == wanted.removed
                &&& r.action@ == wanted.action
            }),
    {
        if !self.is_open(id.as_str()) {
            return ignore();
        }
        let at: usize = match self.active_transfers.find(peer_id, id.as_str()) {
            Some(at) => at,
            None => {
                return ignore();
            },
        };
        let ghost before = *self;
        let ghost session = self@.transfers[at as int];
        proof {
            assert(session == self.active_transfers.items@[at as int]@);
        }
        match self.active_transfers.items[at].item.accept_chunk(
            file_index,
            offset,
            bytes.as_slice(),
        ) {
            Ok(create) => {
                self.active_transfers.items[at].last_activity = now;
                let ghost after = SessionView {
                    last: now,
                    item: session.item.with_chunk(file_index, bytes@),
                    ..session
                };
                proof {
                    assert(self.active_transfers.items@[at as int]@ == after);
                    assert(self@.transfers == before@.transfers.update(at as int, after));
                    lemma_update(before@.transfers, at as int, after);
                    lemma_transfers_kept(before, *self, at as int);
                }
                let entry: usize = match self.active_transfers.items[at].item.entry_of(file_index) {
                    Some(entry) => entry,
                    None => {
                        return ignore();
                    },
                };
                act(Action::Write { entry, create, bytes })
            },
            Err(error) => {
                proof {
                    assert(self.active_transfers.items@ == before.active_transfers.items@);
                    assert(self@ == before@);
                }
                let removed = self.remove_transfer(peer_id, id.as_str());
                Outcome { removed, action: Action::Refuse(Refusal::Chunk(error)) }
            },
        }
    }

    fn on_file_end(
        &mut self,
        peer_id: u64,
        id: String,
        file_index: u32,
        sha256: [u8; 32],
        now: u64,
    ) -> (r: Outcome)
        requires
            old(self).wf(),
        ensures
            final(self).wf(),
            ({
                let wanted = old(self)@.on_file_end(peer_id, id@, file_index, sha256@, now);
                &&& final(self)@ == wanted.state
                &&& texts(r.removed@) == wanted.removed
                &&& r.action@ == wanted.action
            }),
    {
        if !self.is_open(id.as_str()) {
            return ignore();
        }
        let at: usize = match self.active_transfers.find(peer_id, id.as_str()) {
            Some(at) => at,
            None => {
                return ignore();
            },
        };
        let ghost before = *self;
        let ghost session = self@.transfers[at as int];
        proof {
            assert(session == self.active_transfers.items@[at as int]@);
        }
        match self.active_transfers.items[at].item.finish_file(file_index, sha256) {
            Ok(create) => {
                self.active_transfers.items[at].last_activity = now;
                let ghost after = SessionView {
                    last: now,
                    item: session.item.with_end(file_index),
                    ..session
                };
                proof {
                    assert(self.active_transfers.items@[at as int]@ == after);
                    assert(self@.transfers == before@.transfers.update(at as int, after));
                    lemma_update(before@.transfers, at as int, after);
                    lemma_transfers_kept(before, *self, at as int);
                }
                let entry: usize = match self.active_transfers.items[at].item.entry_of(file_index) {
                    Some(entry) => entry,
                    None => {
                        return ignore();
                    },
                };
                act(Action::Commit { entry, create })
            },
            Err(error) => {
                proof {
                    assert(self.active_transfers.items@ == before.active_transfers.items@);
                    assert(self@ == before@);
                }
                let removed = self.remove_transfer(peer_id, id.as_str());
                Outcome { removed, action: Action::Refuse(Refusal::FileEnd(error)) }
            },
        }
    }

    fn on_transfer_end(&mut self, peer_id: u64, id: String) -> (r: Outcome)
        requires
            old(self).wf(),
        ensures
            final(self).wf(),
            ({
                let wanted = old(self)@.on_transfer_end(peer_id, id@);
                &&& final(self)@ == wanted.state
                &&& texts(r.removed@) == wanted.removed
                &&& r.action@ == wanted.action
            }),
            r.action matches Action::Finish { transfer, .. } ==> transfer.wf(),
    {
        if !valid_message_id(id.as_str()) {
            return ignore();
        }
        if self.completed.contains(id.as_str()) {
            let removed = self.remove_transfer(peer_id, id.as_str());
            return Outcome { removed, action: Action::Ignore };
        }
        let at: usize = match self.active_transfers.find(peer_id, id.as_str()) {
            Some(at) => at,
            None => {
                return act(Action::Refuse(Refusal::UnknownTransfer));
            },
        };
        let ghost before = *self;
        proof {
            assert(self@.transfers[at as int] == self.active_transfers.items@[at as int]@);
        }
        if !self.active_transfers.items[at].item.all_finished() {
            let removed = self.remove_transfer(peer_id, id.as_str());
            return Outcome {
                removed,
                action: Action::Refuse(Refusal::TransferEnd(TransferError::Unfinished)),
            };
        }
        match self.take_transfer(peer_id, id.as_str()) {
            Some(transfer) => act(Action::Finish { id, transfer }),
            None => ignore(),
        }
    }

    /// Takes a file transfer out of the session.
    fn take_transfer(&mut self, peer_id: u64, id: &str) -> (r: Option<IncomingTransfer>)
        requires
            old(self).wf(),
        ensures
            final(self).wf(),
            final(self)@ == old(self)@.without_transfer(peer_id, id@),
            r is Some <==> is_active(old(self)@.transfers, peer_id, id@),
            r matches Some(transfer) ==> transfer.wf() && transfer@ == old(self)@.transfers[place(
                old(self)@.transfers,
                peer_id,
                id@,
            )].item,
    {
        let ghost before = *self;
        proof {
            lemma_without(self@.transfers, peer_id, id@);
            lemma_place(self@.transfers, peer_id, id@);
        }
        let ghost at = place(before@.transfers, peer_id, id@);
        match self.active_transfers.remove(peer_id, id) {
            Some(session) => {
                proof {
                    assert(before@.transfers[at] == session@);
                    assert(before.active_transfers.items@[at].item.wf());
                    assert forall|i: int| 0 <= i < self.active_transfers.items@.len() implies (
                    #[trigger] self.active_transfers.items@[i]).item.wf() by {
                        let k = if i < at {
                            i
                        } else {
                            i + 1
                        };
                        assert(self.active_transfers.items@[i] == before.active_transfers.items@[k]);
                    }
                    assert forall|i: int| 0 <= i < self@.transfers.len() implies (
                    #[trigger] self@.transfers[i]).size == total_size(
                        self@.transfers[i].item.entries,
                    ) by {
                        let k = if i < at {
                            i
                        } else {
                            i + 1
                        };
                        assert(self@.transfers[i] == before@.transfers[k]);
                    }
                }
                Some(session.item)
            },
            None => {
                proof {
                    assert forall|i: int| 0 <= i < self.active_transfers.items@.len() implies (
                    #[trigger] self.active_transfers.items@[i]).item.wf() by {
                        assert(self.active_transfers.items@[i] == before.active_transfers.items@[i]);
                    }
                }
                None
            },
        }
    }

    fn on_abort(&mut self, peer_id: u64, id: String) -> (r: Outcome)
        requires
            old(self).wf(),
        ensures
            final(self).wf(),
            ({
                let wanted = old(self)@.on_abort(peer_id, id@);
                &&& final(self)@ == wanted.state
                &&& texts(r.removed@) == wanted.removed
                &&& r.action@ == wanted.action
            }),
    {
        let removed = self.remove_transfer(peer_id, id.as_str());
        let _ = self.remove_image(peer_id, id.as_str());
        Outcome { removed, action: Action::Aborted }
    }

    fn on_image_start(
        &mut self,
        peer_id: u64,
        id: String,
        fingerprint: u64,
        width: u32,
        height: u32,
        size: u64,
        now: u64,
    ) -> (r: Outcome)
        requires
            old(self).wf(),
        ensures
            final(self).wf(),
            ({
                let wanted = old(self)@.on_image_start(
                    peer_id,
                    id@,
                    fingerprint,
                    width,
                    height,
                    size,
                    now,
                );
                &&& final(self)@ == wanted.state
                &&& texts(r.removed@) == wanted.removed
                &&& r.action@ == wanted.action
            }),
    {
        if !self.is_open(id.as_str()) {
            return ignore();
        }
        if self.active_images.items.len() >= MAX_ACTIVE_IMAGES {
            return act(Action::Refuse(Refusal::TooManyImages));
        }
        let active: u64 = self.active_images.total();
        if size > MAX_ACTIVE_IMAGE_BYTES - active {
            return act(Action::Refuse(Refusal::TooManyImageBytes));
        }
        match IncomingImage::start(fingerprint, width, height, size) {
            Err(error) => act(Action::Refuse(Refusal::ImageStart(error))),
            Ok(image) => {
                proof {
                    lemma_without(self@.images, peer_id, id@);
                }
                let _ = self.remove_image(peer_id, id.as_str());
                let ghost before = *self;
                let session = Session {
                    key: SessionKey::new(peer_id, id),
                    last_activity: now,
                    size,
                    item: image,
                };
                self.active_images.push(session);
                proof {
                    lemma_push(before@.images, session@);
                    assert forall|i: int| 0 <= i < self@.images.len() implies (
                    #[trigger] self@.images[i]).size == self@.images[i].item.expected by {
                        if i < before@.images.len() {
                            assert(self@.images[i] == before@.images[i]);
                        }
                    }
                    assert forall|i: int| 0 <= i < self.active_images.items@.len() implies (
                    #[trigger] self.active_images.items@[i]).item.wf() by {
                        if i < before.active_images.items@.len() {
                            assert(self.active_images.items@[i] == before.active_images.items@[i]);
                        }
                    }
                }
                act(Action::BeginImage)
            },
        }
    }

    fn on_image_chunk(
        &mut self,
        peer_id: u64,
        id: String,
        offset: u64,
        bytes: Vec<u8>,
        now: u64,
    ) -> (r: Outcome)
        requires
            old(self).wf(),
        ensures
            final(self).wf(),
            ({
                let wanted = old(self)@.on_image_chunk(peer_id, id@, offset, bytes@, now);
                &&& final(self)@ == wanted.state
                &&& texts(r.removed@) == wanted.removed
                &&& r.action@ == wanted.action
            }),
    {
        if !self.is_open(id.as_str()) {
            return ignore();
        }
        let at: usize = match self.active_images.find(peer_id, id.as_str()) {
            Some(at) => at,
            None => {
                return ignore();
            },
        };
        let ghost before = *self;
        let ghost session = self@.images[at as int];
        proof {
            assert(session == self.active_images.items@[at as int]@);
        }
        match self.active_images.items[at].item.accept_chunk(offset, bytes.as_slice()) {
            Ok(()) => {
                self.active_images.items[at].last_activity = now;
                let ghost after = SessionView {
                    last: now,
                    item: session.item.with_chunk(bytes@),
                    ..session
                };
                proof {
                    assert(self.active_images.items@[at as int]@ == after);
                    assert(self@.images == before@.images.update(at as int, after));
                    lemma_update(before@.images, at as int, after);
                    lemma_images_kept(before, *self, at as int);
                }
                act(Action::Took)
            },
            Err(error) => {
                proof {
                    assert(self.active_images.items@ == before.active_images.items@);
                    assert(self@ == before@);
                }
                let _ = self.remove_image(peer_id, id.as_str());
                act(Action::Refuse(Refusal::ImageChunk(error)))
            },
        }
    }

    fn on_image_end(&mut self, peer_id: u64, id: String, sha256: [u8; 32]) -> (r: Outcome)
        requires
            old(self).wf(),
        ensures
            final(self).wf(),
            ({
                let wanted = old(self)@.on_image_end(peer_id, id@, sha256@);
                &&& final(self)@ == wanted.state
                &&& texts(r.removed@) == wanted.removed
                &&& r.action@ == wanted.action
            }),
    {
        if !valid_message_id(id.as_str()) {
            return ignore();
        }
        if self.completed.contains(id.as_str()) {
            let _ = self.remove_image(peer_id, id.as_str());
            return ignore();
        }
        let image = match self.remove_image(peer_id, id.as_str()) {
            Some(image) => image,
            None => {
                return act(Action::Refuse(Refusal::UnknownImage));
            },
        };
        match image.finish(sha256) {
            Ok((fingerprint, payload)) => act(Action::Apply { id, fingerprint, payload }),
            Err(error) => act(Action::Refuse(Refusal::ImageEnd(error))),
        }
    }

    fn on_message(&mut self, peer_id: u64, message: WireMessage, now: u64) -> (r: Outcome)
        requires
            old(self).wf(),
        ensures
            final(self).wf(),
            ({
                let wanted = old(self)@.on_message(peer_id, message@, now);
                &&& final(self)@ == wanted.state
                &&& texts(r.removed@) == wanted.removed
                &&& r.action@ == wanted.action
            }),
            r.action matches Action::Finish { transfer, .. } ==> transfer.wf(),
    {
        match message {
            WireMessage::Hello { version: _ } => ignore(),
            WireMessage::Clipboard { id, payload } => self.on_clipboard(id, payload),
            WireMessage::TransferStart { id, entries } => self.on_transfer_start(
                peer_id,
                id,
                entries,
                now,
            ),
            WireMessage::TransferChunk { id, file_index, offset, bytes } => self.on_transfer_chunk(
                peer_id,
                id,
                file_index,
                offset,
                bytes,
                now,
            ),
            WireMessage::TransferFileEnd { id, file_index, sha256 } => self.on_file_end(
                peer_id,
                id,
                file_index,
                sha256,
                now,
            ),
            WireMessage::TransferEnd { id } => self.on_transfer_end(peer_id, id),
            WireMessage::TransferAbort { id } => self.on_abort(peer_id, id),
            WireMessage::ImageStart { id, fingerprint, width, height, size } => self.on_image_start(
                peer_id,
                id,
                fingerprint,
                width,
                height,
                size,
                now,
            ),
            WireMessage::ImageChunk { id, offset, bytes } => self.on_image_chunk(
                peer_id,
                id,
                offset,
                bytes,
                now,
            ),
            WireMessage::ImageEnd { id, sha256 } => self.on_image_end(peer_id, id, sha256),
        }
    }

    /// Gives up the transfers that a rule drops, and names their directories, which
    /// are to be removed.
    fn drop_sessions(&mut self, rule: DropRule) -> (removed: Vec<String>)
        requires
            old(self).wf(),
        ensures
            final(self).wf(),
            final(self)@ == (StateView {
                transfers: kept(old(self)@.transfers, rule),
                images: kept(old(self)@.images, rule),
                ..old(self)@
            }),
            texts(removed@) == directories(dropped(old(self)@.transfers, rule)),
    {
        let ghost before = *self;
        proof {
            lemma_kept(self@.transfers, rule);
            lemma_kept(self@.images, rule);
        }
        let gone = self.active_transfers.drop_matching(rule);
        let _ = self.active_images.drop_matching(rule);
        let ghost views = gone@.map_values(|s: Session<IncomingTransfer>| s@);
        let ghost wanted = directories(views);
        proof {
            assert(wanted.len() == gone@.len());
            assert forall|i: int| 0 <= i < self@.transfers.len() implies (
            #[trigger] self@.transfers[i]).size == total_size(self@.transfers[i].item.entries) by {
                let x = kept(before@.transfers, rule)[i];
                assert(before@.transfers.contains(x));
                let k = choose|k: int|
                    0 <= k < before@.transfers.len() && before@.transfers[k] == x;
                assert(before@.transfers[k].size == x.size);
            }
            assert forall|i: int| 0 <= i < self@.images.len() implies (
            #[trigger] self@.images[i]).size == self@.images[i].item.expected by {
                let x = kept(before@.images, rule)[i];
                assert(before@.images.contains(x));
                let k = choose|k: int| 0 <= k < before@.images.len() && before@.images[k] == x;
                assert(before@.images[k].size == x.size);
            }
            assert forall|i: int| 0 <= i < self.active_transfers.items@.len() implies (
            #[trigger] self.active_transfers.items@[i]).item.wf() by {
                let x = self.active_transfers.items@[i];
                assert(before.active_transfers.items@.contains(x));
            }
            assert forall|i: int| 0 <= i < self.active_images.items@.len() implies (
            #[trigger] self.active_images.items@[i]).item.wf() by {
                let x = self.active_images.items@[i];
                assert(before.active_images.items@.contains(x));
            }
        }
        let mut removed: Vec<String> = Vec::new();
        let mut i: usize = 0;
        proof {
            assert(texts(removed@) == wanted.take(0));
        }
        while i < gone.len()
            invariant
                i <= gone@.len(),
                views == gone@.map_values(|s: Session<IncomingTransfer>| s@),
                wanted == directories(views),
                wanted.len() == gone@.len(),
                texts(removed@) == wanted.take(i as int),
            decreases gone@.len() - i,
        {
            let ghost names = texts(removed@);
            let name = String::from_str(gone[i].item.directory());
            proof {
                assert(views[i as int] == gone@[i as int]@);
                assert(wanted[i as int] == name@);
                assert(wanted.take(i as int + 1) == wanted.take(i as int).push(wanted[i as int]));
            }
            removed.push(name);
            proof {
                assert(texts(removed@) == names.push(name@));
            }
            i += 1;
        }
        proof {
            assert(wanted.take(wanted.len() as int) == wanted);
        }
        removed
    }

    /// Gives up the transfers of a device that is gone.
    pub fn cleanup_peer_sessions(&mut self, peer_id: u64) -> (removed: Vec<String>)
        requires
            old(self).wf(),
        ensures
            final(self).wf(),
            final(self)@ == (StateView {
                transfers: kept(old(self)@.transfers, DropRule::Peer { peer_id }),
                images: kept(old(self)@.images, DropRule::Peer { peer_id }),
                ..old(self)@
            }),
            texts(removed@) == directories(
                dropped(old(self)@.transfers, DropRule::Peer { peer_id }),
            ),
    {
        self.drop_sessions(DropRule::Peer { peer_id })
    }

    /// Gives up the transfers that have been idle for too long, and names their
    /// directories, which are to be removed.
    pub fn expire_sessions(&mut self, now: u64) -> (removed: Vec<String>)
        requires
            old(self).wf(),
        ensures
            final(self).wf(),
            final(self)@ == old(self)@.expired(now),
            texts(removed@) == directories(dropped(old(self)@.transfers, DropRule::Idle { now })),
    {
        self.drop_sessions(DropRule::Idle { now })
    }

    /// Decides what comes of an event at this time, in nanoseconds.
    pub fn handle_incoming_event(&mut self, event: IncomingEvent, now: u64) -> (r: Outcome)
        requires
            old(self).wf(),
        ensures
            final(self).wf(),
            ({
                let wanted = old(self)@.on_event(event, now);
                &&& final(self)@ == wanted.state
                &&& texts(r.removed@) == wanted.removed
                &&& r.action@ == wanted.action
            }),
            r.action matches Action::Finish { transfer, .. } ==> transfer.wf(),
    {
        match event {
            IncomingEvent::Message { peer_id, message } => self.on_message(peer_id, message, now),
            IncomingEvent::Disconnected { peer_id } => {
                self.sent_peers.remove(&peer_id);
                let removed = self.cleanup_peer_sessions(peer_id);
                Outcome { removed, action: Action::Ignore }
            },
        }
    }

    /// The file transfer with this key, if it is under way.
    pub fn transfer(&self, peer_id: u64, id: &str) -> (r: Option<&IncomingTransfer>)
        requires
            self.wf(),
        ensures
            r is Some <==> is_active(self@.transfers, peer_id, id@),
            r matches Some(transfer) ==> transfer.wf() && transfer@ == self@.transfers[place(
                self@.transfers,
                peer_id,
                id@,
            )].item,
    {
        match self.active_transfers.find(peer_id, id) {
            Some(at) => {
                proof {
                    assert(self@.transfers[at as int] == self.active_transfers.items@[at as int]@);
                }
                Some(&self.active_transfers.items[at].item)
            },
            None => None,
        }
    }

    /// Takes note that what came with a message is on the clipboard.
    pub fn clipboard_applied(&mut self, id: &str, fingerprint: u64, peer_id: u64)
        requires
            old(self).wf(),
        ensures
            final(self).wf(),
            final(self)@ == (StateView {
                completed: seen_after(old(self)@.completed, id@),
                ..old(self)@.remote_applied(fingerprint, peer_id)
            }),
    {
        proof {
            law_seen_ids(self@.completed, id@);
        }
        let _ = self.completed.insert(id);
        mark_remote_applied(self, fingerprint, peer_id);
    }

    /// Takes note of what is on the clipboard now, and of who is connected. Whoever
    /// does not have it yet is to be sent it, in a message with the identifier.
    pub fn plan_send(&mut self, fingerprint: u64, peers: &Vec<u64>) -> (r: Option<
        (String, Vec<u64>),
    >)
        requires
            old(self).wf(),
        ensures
            final(self).wf(),
            r is Some <==> missing(peers@, old(self)@.have(fingerprint)).len() > 0,
            r matches Some((id, targets)) ==> id@ == old(self)@.next_message_id() && targets@
                == missing(peers@, old(self)@.have(fingerprint)),
            final(self)@ == (StateView {
                capture_error: None,
                sent_peers: old(self)@.have(fingerprint),
                sequence: if r is Some {
                    old(self)@.next_sequence()
                } else {
                    old(self)@.sequence
                },
                ..old(self)@
            }),
    {
        self.last_capture_error = None;
        let same = match self.last_fingerprint {
            Some(last) => last == fingerprint,
            None => false,
        };
        if !same {
            self.sent_peers.clear();
        }
        let ghost have = self.sent_peers@;
        proof {
            assert(have == old(self)@.have(fingerprint));
        }
        let mut targets: Vec<u64> = Vec::new();
        let mut i: usize = 0;
        while i < peers.len()
            invariant
                i <= peers@.len(),
                have == self.sent_peers@,
                targets@ == missing(peers@.take(i as int), have),
            decreases peers@.len() - i,
        {
            proof {
                assert(peers@.take(i as int + 1).drop_last() == peers@.take(i as int));
            }
            if !self.sent_peers.contains(&peers[i]) {
                targets.push(peers[i]);
            }
            i += 1;
        }
        proof {
            assert(peers@.take(peers@.len() as int) == peers@);
        }
        if targets.len() == 0 {
            return None;
        }
        let id = self.next_id();
        Some((id, targets))
    }

    /// Takes note that the clipboard was sent, or why it was not. The answer says
    /// whether the reason is a new one.
    pub fn finish_send(
        &mut self,
        targets: &Vec<u64>,
        fingerprint: u64,
        error: Option<String>,
    ) -> (announce: bool)
        requires
            old(self).wf(),
        ensures
            final(self).wf(),
            announce == (error is Some && text_view(error) != old(self)@.send_error),
            final(self)@ == (StateView {
                sent_peers: old(self)@.sent_peers.union(targets@.to_set()),
                last_fingerprint: Some(fingerprint),
                send_error: text_view(error),
                ..old(self)@
            }),
    {
        let ghost before = self@.sent_peers;
        let mut i: usize = 0;
        proof {
            assert(before.union(targets@.take(0).to_set()) == before);
        }
        while i < targets.len()
            invariant
                i <= targets@.len(),
                self.sent_peers@ == before.union(targets@.take(i as int).to_set()),
                self@ == (StateView { sent_peers: self.sent_peers@, ..old(self)@ }),
                self.completed == old(self).completed,
                self.active_transfers == old(self).active_transfers,
                self.active_images == old(self).active_images,
            decreases targets@.len() - i,
        {
            self.sent_peers.insert(targets[i]);
            proof {
                let taken = targets@.take(i as int);
                let more = targets@.take(i as int + 1);
                assert(more == taken.push(targets@[i as int]));
                assert forall|x: u64| #[trigger] more.to_set().contains(x) <==> taken.to_set().insert(
                    targets@[i as int],
                ).contains(x) by {
                    if taken.contains(x) {
                        let k = choose|k: int| 0 <= k < taken.len() && taken[k] == x;
                        assert(more[k] == x);
                    }
                    if more.contains(x) && x != targets@[i as int] {
                        let k = choose|k: int| 0 <= k < more.len() && more[k] == x;
                        assert(taken[k] == x);
                    }
                    assert(more[i as int] == targets@[i as int]);
                }
                assert(more.to_set() == taken.to_set().insert(targets@[i as int]));
                assert(self.sent_peers@ == before.union(more.to_set()));
            }
            i += 1;
        }
        proof {
            assert(targets@.take(targets@.len() as int) == targets@);
        }
        self.last_fingerprint = Some(fingerprint);
        let announce = match (&error, &self.last_send_error) {
            (None, _) => false,
            (Some(_), None) => true,
            (Some(new), Some(last)) => !same_text(new.as_str(), last.as_str()),
        };
        self.last_send_error = error;
        announce
    }

    /// Takes note that the clipboard could not be read. The answer says whether the
    /// reason is a new one.
    pub fn capture_failed(&mut self, message: String) -> (announce: bool)
        requires
            old(self).wf(),
        ensures
            final(self).wf(),
            announce == (old(self)@.capture_error != Some(message@)),
            final(self)@ == (StateView { capture_error: Some(message@), ..old(self)@ }),
    {
        let announce = match &self.last_capture_error {
            None => true,
            Some(last) => !same_text(message.as_str(), last.as_str()),
        };
        if announce {
            self.last_capture_error = Some(message);
        }
        announce
    }
}

/// Takes note that what came from a device is on the clipboard.
pub fn mark_remote_applied(state: &mut SyncState, fingerprint: u64, peer_id: u64)
    requires
        old(state).wf(),
    ensures
        final(state).wf(),
        final(state)@ == old(state)@.remote_applied(fingerprint, peer_id),
{
    let same = match state.last_fingerprint {
        Some(last) => last == fingerprint,
        None => false,
    };
    if !same {
        state.sent_peers.clear();
    }
    state.last_fingerprint = Some(fingerprint);
    state.sent_peers.insert(peer_id);
    state.last_send_error = None;
}

/// A file transfer that goes on leaves the others as they are.
proof fn lemma_transfers_kept(before: SyncState, after: SyncState, at: int)
    requires
        before.wf(),
        0 <= at < before.active_transfers.items@.len(),
        after.active_transfers.items@.len() == before.active_transfers.items@.len(),
        forall|i: int|
            0 <= i < before.active_transfers.items@.len() && i != at ==> (
            #[trigger] after.active_transfers.items@[i]) == before.active_transfers.items@[i],
        after.active_transfers.items@[at].item.wf(),
        after.active_transfers.items@[at].size == before.active_transfers.items@[at].size,
        after.active_transfers.items@[at].item@.entries
            == before.active_transfers.items@[at].item@.entries,
    ensures
        forall|i: int|
            0 <= i < after.active_transfers.items@.len() ==> (
            #[trigger] after.active_transfers.items@[i]).item.wf(),
        forall|i: int|
            0 <= i < after@.transfers.len() ==> (#[trigger] after@.transfers[i]).size == total_size(
                after@.transfers[i].item.entries,
            ),
{
    assert forall|i: int| 0 <= i < after@.transfers.len() implies (
    #[trigger] after@.transfers[i]).size == total_size(after@.transfers[i].item.entries) by {
        assert(after@.transfers[i] == after.active_transfers.items@[i]@);
        assert(before@.transfers[i] == before.active_transfers.items@[i]@);
        assert(before@.transfers[i].size == total_size(before@.transfers[i].item.entries));
    }
}

/// An image that goes on leaves the others as they are.
proof fn lemma_images_kept(before: SyncState, after: SyncState, at: int)
    requires
        before.wf(),
        0 <= at < before.active_images.items@.len(),
        after.active_images.items@.len() == before.active_images.items@.len(),
        forall|i: int|
            0 <= i < before.active_images.items@.len() && i != at ==> (
            #[trigger] after.active_images.items@[i]) == before.active_images.items@[i],
        after.active_images.items@[at].item.wf(),
        after.active_images.items@[at].size == before.active_images.items@[at].size,
        after.active_images.items@[at].item@.expected
            == before.active_images.items@[at].item@.expected,
    ensures
        forall|i: int|
            0 <= i < after.active_images.items@.len() ==> (
            #[trigger] after.active_images.items@[i]).item.wf(),
        forall|i: int|
            0 <= i < after@.images.len() ==> (#[trigger] after@.images[i]).size
                == after@.images[i].item.expected,
{
    assert forall|i: int| 0 <= i < after@.images.len() implies (#[trigger] after@.images[i]).size
        == after@.images[i].item.expected by {
        assert(after@.images[i] == after.active_images.items@[i]@);
        assert(before@.images[i] == before.active_images.items@[i]@);
        assert(before@.images[i].size == before@.images[i].item.expected);
    }
}

/// Two messages of one device never have the same identifier.
pub proof fn law_message_ids_are_unique(origin: Seq<char>, m: nat, n: nat)
    requires
        message_id(origin, m) == message_id(origin, n),
    ensures
        m == n,
{
    let from = origin.len() as int + 1;
    assert(message_id(origin, m).skip(from) == decimal(m));
    assert(message_id(origin, n).skip(from) == decimal(n));
    lemma_decimal_injective(m, n);
}

/// The next message has another identifier, until the numbers are used up.
pub proof fn law_next_id_is_new(state: StateView)
    requires
        state.sequence < u64::MAX - 1,
    ensures
        state.next_message_id() != (StateView {
            sequence: state.next_sequence(),
            ..state
        }).next_message_id(),
{
    let after = StateView { sequence: state.next_sequence(), ..state };
    if state.next_message_id() == after.next_message_id() {
        law_message_ids_are_unique(
            state.origin,
            state.next_sequence() as nat,
            after.next_sequence() as nat,
        );
    }
}

proof fn lemma_missing(peers: Seq<u64>, have: Set<u64>)
    ensures
        forall|x: u64|
            #[trigger] missing(peers, have).contains(x) <==> peers.contains(x) && !have.contains(x),
    decreases peers.len(),
{
    if peers.len() > 0 {
        let before = peers.drop_last();
        lemma_missing(before, have);
        let all = missing(peers, have);
        let rest = missing(before, have);
        assert forall|x: u64| #[trigger] all.contains(x) <==> peers.contains(x)
            && !have.contains(x) by {
            if all.contains(x) {
                let k = choose|k: int| 0 <= k < all.len() && all[k] == x;
                if k < rest.len() {
                    assert(rest[k] == x);
                    assert(rest.contains(x));
                    let j = choose|j: int| 0 <= j < before.len() && before[j] == x;
                    assert(peers[j] == x);
                } else {
                    assert(peers[peers.len() - 1] == x);
                }
            }
            if peers.contains(x) && !have.contains(x) {
                let j = choose|j: int| 0 <= j < peers.len() && peers[j] == x;
                if j < before.len() {
                    assert(before[j] == x);
                    assert(rest.contains(x));
                    let k = choose|k: int| 0 <= k < rest.len() && rest[k] == x;
                    assert(all[k] == x);
                } else {
                    assert(all[all.len() - 1] == x);
                }
            }
        }
    }
}

/// The clipboard is sent to each device once: after it was sent to those who did
/// not have it, nobody connected is left who does not.
pub proof fn law_clipboard_is_sent_once(state: StateView, fingerprint: u64, peers: Seq<u64>)
    ensures
        ({
            let targets = missing(peers, state.have(fingerprint));
            let after = StateView {
                sent_peers: state.have(fingerprint).union(targets.to_set()),
                last_fingerprint: Some(fingerprint),
                ..state
            };
            missing(peers, after.have(fingerprint)).len() == 0
        }),
{
    let targets = missing(peers, state.have(fingerprint));
    let have = state.have(fingerprint).union(targets.to_set());
    lemma_missing(peers, state.have(fingerprint));
    lemma_missing(peers, have);
    let left = missing(peers, have);
    if left.len() > 0 {
        assert(left.contains(left[0]));
        assert(targets.contains(left[0]));
        assert(targets.to_set().contains(left[0]));
    }
}

/// What came from a device is not sent back to it.
pub proof fn law_nothing_is_sent_back(
    state: StateView,
    fingerprint: u64,
    peer_id: u64,
    peers: Seq<u64>,
)
    ensures
        !missing(peers, state.remote_applied(fingerprint, peer_id).have(fingerprint)).contains(
            peer_id,
        ),
{
    lemma_missing(peers, state.remote_applied(fingerprint, peer_id).have(fingerprint));
}

/// A device that was gone and comes back is sent the clipboard again.
pub proof fn law_returning_device_is_sent_again(
    state: StateView,
    fingerprint: u64,
    peer_id: u64,
    peers: Seq<u64>,
)
    requires
        peers.contains(peer_id),
    ensures
        missing(peers, state.on_disconnect(peer_id).state.have(fingerprint)).contains(peer_id),
{
    lemma_missing(peers, state.on_disconnect(peer_id).state.have(fingerprint));
}

/// A message that was dealt with does nothing when it comes again: a clipboard, a
/// start, a chunk or the end of a file with its identifier changes nothing.
pub proof fn law_completed_messages_are_ignored(
    state: StateView,
    peer: u64,
    message: MessageView,
    now: u64,
)
    requires
        match message {
            MessageView::Clipboard { id, .. } => state.completed.contains(id),
            MessageView::TransferStart { id, .. } => state.completed.contains(id),
            MessageView::TransferChunk { id, .. } => state.completed.contains(id),
            MessageView::TransferFileEnd { id, .. } => state.completed.contains(id),
            MessageView::ImageStart { id, .. } => state.completed.contains(id),
            MessageView::ImageChunk { id, .. } => state.completed.contains(id),
            _ => false,
        },
    ensures
        state.on_message(peer, message, now) == state.with(ActionView::Ignore),
{
}

proof fn lemma_without_keeps_others<V>(sessions: Seq<SessionView<V>>, peer: u64, id: Seq<char>)
    ensures
        forall|i: int|
            0 <= i < sessions.len() && (#[trigger] sessions[i]).peer != peer ==> without(
                sessions,
                peer,
                id,
            ).contains(sessions[i]),
{
    lemma_place(sessions, peer, id);
    let at = place(sessions, peer, id);
    let rest = without(sessions, peer, id);
    assert forall|i: int|
        0 <= i < sessions.len() && (#[trigger] sessions[i]).peer != peer implies rest.contains(
        sessions[i],
    ) by {
        if !is_active(sessions, peer, id) || i < at {
            assert(rest[i] == sessions[i]);
        } else {
            assert(i != at);
            assert(rest[i - 1] == sessions[i]);
        }
    }
}

/// No message of one device touches the transfers of another.
pub proof fn law_devices_do_not_interfere(
    state: StateView,
    peer: u64,
    message: MessageView,
    now: u64,
)
    ensures
        forall|i: int|
            0 <= i < state.transfers.len() && (#[trigger] state.transfers[i]).peer != peer
                ==> state.on_message(peer, message, now).state.transfers.contains(
                state.transfers[i],
            ),
        forall|i: int|
            0 <= i < state.images.len() && (#[trigger] state.images[i]).peer != peer
                ==> state.on_message(peer, message, now).state.images.contains(state.images[i]),
{
    let after = state.on_message(peer, message, now).state;
    let id = match message {
        MessageView::TransferStart { id, .. } => id,
        MessageView::TransferChunk { id, .. } => id,
        MessageView::TransferFileEnd { id, .. } => id,
        MessageView::TransferEnd { id } => id,
        MessageView::TransferAbort { id } => id,
        MessageView::ImageStart { id, .. } => id,
        MessageView::ImageChunk { id, .. } => id,
        MessageView::ImageEnd { id, .. } => id,
        _ => seq![],
    };
    lemma_without_keeps_others(state.transfers, peer, id);
    lemma_without_keeps_others(state.images, peer, id);
    lemma_place(state.transfers, peer, id);
    lemma_place(state.images, peer, id);
    assert forall|i: int|
        0 <= i < state.transfers.len() && (#[trigger] state.transfers[i]).peer
            != peer implies after.transfers.contains(state.transfers[i]) by {
        let x = state.transfers[i];
        let rest = without(state.transfers, peer, id);
        if rest.contains(x) {
            let k = choose|k: int| 0 <= k < rest.len() && rest[k] == x;
            if after.transfers.len() == state.transfers.len() && after.transfers[i] == x {
            } else {
                assert(after.transfers[k] == x);
            }
        }
    }
    assert forall|i: int|
        0 <= i < state.images.len() && (#[trigger] state.images[i]).peer
            != peer implies after.images.contains(state.images[i]) by {
        let x = state.images[i];
        let rest = without(state.images, peer, id);
        if rest.contains(x) {
            let k = choose|k: int| 0 <= k < rest.len() && rest[k] == x;
            if after.images.len() == state.images.len() && after.images[i] == x {
            } else {
                assert(after.images[k] == x);
            }
        }
    }
}

} // verus!
