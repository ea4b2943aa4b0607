//! The session of the direct mode: what every message does, and when the clipboard
//! is sent.

use vstd::prelude::*;
use vstd::string::StringExecFns;

use super::receive::{manifest_fault, started, IncomingTransfer, ManifestError, TransferView};
use super::wire::{
    entry_views, fingerprint, payload_hash, transfer_directory, MessageView,
    TransferEntry, WireMessage,
};
use crate::progress::TransferError;
use crate::seen::{law_seen_ids, seen_after, SeenIds, MAX_SEEN};
use crate::sessions::{
    distinct, is_active, lemma_place, lemma_push, lemma_update, lemma_without, place, without,
    Session, SessionKey, SessionTable, SessionView,
};
use crate::state::{law_message_ids_are_unique, message_id, text_view};
use crate::text::{decimal, decimal_text, same_text};
use crate::wire::{ClipboardPayload, PayloadView};

verus! {

/// The number under which all devices share their transfers.
pub const EVERYONE: u64 = 0;

/// Why a message has no effect, or ends a transfer.
#[derive(Debug, Clone, Copy, PartialEq, Eq, Structural)]
pub enum Refusal {
    Manifest(ManifestError),
    UnknownTransfer,
    Chunk(TransferError),
    FileEnd(TransferError),
    TransferEnd(TransferError),
}

/// What is to be done about a message.
pub enum Action {
    Ignore,
    Refuse(Refusal),
    /// Remove the directory, and say why.
    GiveUp { directory: String, refusal: Refusal },
    /// Put this on the clipboard, and call `payload_applied` once it is there.
    Apply { fingerprint: u64, payload: ClipboardPayload },
    /// Make the directories of the transfer.
    Begin,
    /// Write these bytes to the end of the file of this entry, which may have to be
    /// made.
    Write { entry: usize, create: bool, bytes: Vec<u8> },
    /// Put the file of this entry, which may have to be made, in its place.
    Commit { entry: usize, create: bool },
    /// Finish the transfer, put its roots on the clipboard, and call
    /// `transfer_applied` once they are there.
    Finish { transfer: IncomingTransfer },
    /// Remove the directory of a transfer that was taken back.
    Aborted { directory: String },
}

/// What is to be done, as a value.
pub ghost enum ActionView {
    Ignore,
    Refuse(Refusal),
    GiveUp { directory: Seq<char>, refusal: Refusal },
    Apply { fingerprint: u64, payload: PayloadView },
    Begin,
    Write { entry: int, create: bool, bytes: Seq<u8> },
    Commit { entry: int, create: bool },
    Finish { transfer: TransferView },
    Aborted { directory: Seq<char> },
}

impl View for Action {
    type V = ActionView;

    open spec fn view(&self) -> ActionView {
        match self {
            Action::Ignore => ActionView::Ignore,
            Action::Refuse(refusal) => ActionView::Refuse(*refusal),
            Action::GiveUp { directory, refusal } => ActionView::GiveUp {
                directory: directory@,
                refusal: *refusal,
            },
            Action::Apply { fingerprint, payload } => ActionView::Apply {
                fingerprint: *fingerprint,
                payload: payload@,
            },
            Action::Begin => ActionView::Begin,
            Action::Write { entry, create, bytes } => ActionView::Write {
                entry: *entry as int,
                create: *create,
                bytes: bytes@,
            },
            Action::Commit { entry, create } => ActionView::Commit {
                entry: *entry as int,
                create: *create,
            },
            Action::Finish { transfer } => ActionView::Finish { transfer: transfer@ },
            Action::Aborted { directory } => ActionView::Aborted { directory: directory@ },
        }
    }
}

/// The session as a value.
pub ghost struct DirectState {
    pub origin: Seq<char>,
    pub sequence: u64,
    pub last_fingerprint: Option<u64>,
    pub attempted_fingerprint: Option<u64>,
    pub capture_error: Option<Seq<char>>,
    pub send_error: Option<Seq<char>>,
    pub seen: Seq<Seq<char>>,
    pub transfers: Seq<SessionView<TransferView>>,
}

impl DirectState {
    /// Transfers have distinct identifiers, and no identifier is remembered twice.
    pub open spec fn valid(self) -> bool {
        &&& self.seen.no_duplicates()
        &&& self.seen.len() <= MAX_SEEN
        &&& distinct(self.transfers)
    }

    /// The transfer with an identifier.
    pub open spec fn transfer(self, id: Seq<char>) -> SessionView<TransferView> {
        self.transfers[place(self.transfers, EVERYONE, id)]
    }

    /// Whether a transfer with an identifier is under way.
    pub open spec fn has(self, id: Seq<char>) -> bool {
        is_active(self.transfers, EVERYONE, id)
    }

    /// Without one transfer.
    pub open spec fn without_transfer(self, id: Seq<char>) -> DirectState {
        DirectState { transfers: without(self.transfers, EVERYONE, id), ..self }
    }

    /// With another stage of a transfer.
    pub open spec fn with_transfer(self, id: Seq<char>, item: TransferView) -> DirectState {
        DirectState {
            transfers: self.transfers.update(
                place(self.transfers, EVERYONE, id),
                SessionView { item, ..self.transfer(id) },
            ),
            ..self
        }
    }

    /// With an identifier remembered.
    pub open spec fn with_seen(self, id: Seq<char>) -> DirectState {
        DirectState { seen: seen_after(self.seen, id), ..self }
    }

    /// Whether a clipboard with this fingerprint is to be sent: it is not the one that
    /// was sent or came in last.
    pub open spec fn wants(self, fingerprint: u64) -> bool {
        self.last_fingerprint != Some(fingerprint)
    }

    /// The identifier of the next message.
    pub open spec fn next_id(self) -> Seq<char> {
        message_id(self.origin, (self.sequence + 1) as nat)
    }

    /// Once a clipboard is about to be sent.
    pub open spec fn attempted(self, fingerprint: u64) -> DirectState {
        DirectState {
            capture_error: None,
            sequence: (self.sequence + 1) as u64,
            attempted_fingerprint: Some(fingerprint),
            ..self
        }
    }

    /// Once a clipboard could not be sent.
    pub open spec fn send_failed(self, message: Seq<char>) -> DirectState {
        DirectState { send_error: Some(message), ..self }
    }

    /// Once a clipboard that came in one message is in place.
    pub open spec fn received(self, fingerprint: u64) -> DirectState {
        DirectState { last_fingerprint: Some(fingerprint), ..self }
    }

    /// Once a clipboard was sent, or files that came in were put on the clipboard.
    pub open spec fn settled(self, fingerprint: u64) -> DirectState {
        DirectState {
            last_fingerprint: Some(fingerprint),
            attempted_fingerprint: None,
            send_error: None,
            ..self
        }
    }

    /// What comes of a message: the session after it, and what is to be done.
    pub open spec fn on_message(self, message: MessageView) -> (DirectState, ActionView) {
        match message {
            MessageView::Clipboard { id, payload } => if self.seen.contains(id) {
                (self, ActionView::Ignore)
            } else {
                (
                    self.with_seen(id),
                    ActionView::Apply { fingerprint: payload_hash(payload), payload },
                )
            },
            MessageView::TransferStart { id, fingerprint, entries } => if self.seen.contains(id) {
                (self, ActionView::Ignore)
            } else {
                match manifest_fault(id, entries) {
                    Some(error) => (
                        self.with_seen(id),
                        ActionView::Refuse(Refusal::Manifest(error)),
                    ),
                    None => {
                        let session = SessionView {
                            peer: EVERYONE,
                            id,
                            last: 0,
                            size: 0,
                            item: started(transfer_directory(id), entries),
                        };
                        let rest = self.with_seen(id).without_transfer(id);
                        (
                            DirectState { transfers: rest.transfers.push(session), ..rest },
                            ActionView::Begin,
                        )
                    },
                }
            },
            MessageView::TransferChunk { id, file_index, offset, bytes } => if !self.has(id) {
                (self, ActionView::Refuse(Refusal::UnknownTransfer))
            } else {
                let item = self.transfer(id).item;
                match item.chunk_fault(file_index, offset, bytes) {
                    Some(error) => (
                        self.without_transfer(id),
                        ActionView::GiveUp {
                            directory: item.directory,
                            refusal: Refusal::Chunk(error),
                        },
                    ),
                    None => (
                        self.with_transfer(id, item.with_chunk(file_index, bytes)),
                        ActionView::Write {
                            entry: item.files[file_index as int].entry,
                            create: offset == 0,
                            bytes,
                        },
                    ),
                }
            },
            MessageView::TransferFileEnd { id, file_index, sha256 } => if !self.has(id) {
                (self, ActionView::Refuse(Refusal::UnknownTransfer))
            } else {
                let item = self.transfer(id).item;
                match item.end_fault(file_index, sha256) {
                    Some(error) => (
                        self.without_transfer(id),
                        ActionView::GiveUp {
                            directory: item.directory,
                            refusal: Refusal::FileEnd(error),
                        },
                    ),
                    None => (
                        self.with_transfer(id, item.with_end(file_index)),
                        ActionView::Commit {
                            entry: item.files[file_index as int].entry,
                            create: item.files[file_index as int].received.len() == 0,
                        },
                    ),
                }
            },
            MessageView::TransferEnd { id } => if !self.has(id) {
                (self, ActionView::Refuse(Refusal::UnknownTransfer))
            } else {
                let item = self.transfer(id).item;
                if item.complete() {
                    (self.without_transfer(id), ActionView::Finish { transfer: item })
                } else {
                    (
                        self.without_transfer(id),
                        ActionView::GiveUp {
                            directory: item.directory,
                            refusal: Refusal::TransferEnd(TransferError::Unfinished),
                        },
                    )
                }
            },
            MessageView::TransferAbort { id } => if !self.has(id) {
                (self, ActionView::Ignore)
            } else {
                (
                    self.without_transfer(id),
                    ActionView::Aborted { directory: self.transfer(id).item.directory },
                )
            },
        }
    }
}

/// The session.
pub struct ClipboardState {
    pub origin: String,
    pub sequence: u64,
    pub last_fingerprint: Option<u64>,
    pub last_attempted_fingerprint: Option<u64>,
    pub last_capture_error: Option<String>,
    pub last_send_error: Option<String>,
    pub seen: SeenIds,
    pub active_transfers: SessionTable<IncomingTransfer>,
}

impl View for ClipboardState {
    type V = DirectState;

    open spec fn view(&self) -> DirectState {
        DirectState {
            origin: self.origin@,
            sequence: self.sequence,
            last_fingerprint: self.last_fingerprint,
            attempted_fingerprint: self.last_attempted_fingerprint,
            capture_error: text_view(self.last_capture_error),
            send_error: text_view(self.last_send_error),
            seen: self.seen@,
            transfers: self.active_transfers@,
        }
    }
}

impl ClipboardState {
    /// The session is valid, and so is every transfer under way.
    pub open spec fn wf(self) -> bool {
        &&& self@.valid()
        &&& self.seen.wf()
        &&& forall|i: int|
            0 <= i < self.active_transfers.items@.len() ==> (
            #[trigger] self.active_transfers.items@[i]).item.wf()
    }

    /// A new session. Its messages are known by the number of the process and the
    /// time at which it began.
    pub fn new(process_id: u32, nanos: u128) -> (state: ClipboardState)
        ensures
            state.wf(),
            state@ == (DirectState {
                origin: decimal(process_id as nat).push('-') + decimal(nanos as nat),
                sequence: 0,
                last_fingerprint: None,
                attempted_fingerprint: None,
                capture_error: None,
                send_error: None,
                seen: seq![],
                transfers: seq![],
            }),
    {
        let mut origin = decimal_text(process_id as u128);
        origin.push('-');
        let time = decimal_text(nanos);
        origin.append(time.as_str());
        ClipboardState {
            origin,
            sequence: 0,
            last_fingerprint: None,
            last_attempted_fingerprint: None,
            last_capture_error: None,
            last_send_error: None,
            seen: SeenIds::default(),
            active_transfers: SessionTable::new(),
        }
    }

    /// Takes a transfer out of the session.
    pub fn take_transfer(&mut self, id: &str) -> (r: Option<IncomingTransfer>)
        requires
            old(self).wf(),
        ensures
            final(self).wf(),
            final(self)@ == old(self)@.without_transfer(id@),
            r is Some <==> old(self)@.has(id@),
            r matches Some(transfer) ==> transfer.wf() && transfer@ == old(self)@.transfer(
                id@,
            ).item,
    {
        let ghost before = *self;
        proof {
            lemma_without(self@.transfers, EVERYONE, id@);
            lemma_place(self@.transfers, EVERYONE, id@);
        }
        let ghost at = place(before@.transfers, EVERYONE, id@);
        match self.active_transfers.remove(EVERYONE, id) {
            Some(session) => {
                proof {
                    assert(before@.transfers[at] == session@);
                    assert(before.active_transfers.items@[at].item.wf());
                    assert forall|i: int| 0 <= i < self.active_transfers.items@.len() implies (
                    #[trigger] self.active_transfers.items@[i]).item.wf() by {
                        let k = if i < at {
                            i
                        } else {
                            i + 1
                        };
                        assert(self.active_transfers.items@[i] == before.active_transfers.items@[k]);
                    }
                }
                Some(session.item)
            },
            None => {
                proof {
                    assert forall|i: int| 0 <= i < self.active_transfers.items@.len() implies (
                    #[trigger] self.active_transfers.items@[i]).item.wf() by {
                        assert(self.active_transfers.items@[i] == before.active_transfers.items@[i]);
                    }
                }
                None
            },
        }
    }

    /// The transfer with an identifier, if it is under way.
    pub fn transfer(&self, id: &str) -> (r: Option<&IncomingTransfer>)
        requires
            self.wf(),
        ensures
            r is Some <==> self@.has(id@),
            r matches Some(transfer) ==> transfer.wf() && transfer@ == self@.transfer(id@).item,
    {
        match self.active_transfers.find(EVERYONE, id) {
            Some(at) => {
                proof {
                    assert(self@.transfers[at as int] == self.active_transfers.items@[at as int]@);
                }
                Some(&self.active_transfers.items[at].item)
            },
            None => None,
        }
    }

    fn give_up(&mut self, id: &str, refusal: Refusal) -> (action: Action)
        requires
            old(self).wf(),
            old(self)@.has(id@),
        ensures
            final(self).wf(),
            final(self)@ == old(self)@.without_transfer(id@),
            action@ == (ActionView::GiveUp {
                directory: old(self)@.transfer(id@).item.directory,
                refusal,
            }),
    {
        match self.take_transfer(id) {
            Some(transfer) => Action::GiveUp {
                directory: String::from_str(transfer.directory()),
                refusal,
            },
            None => Action::Ignore,
        }
    }

    fn on_transfer_start(&mut self, id: String, sent: u64, entries: Vec<TransferEntry>) -> (action:
        Action)
        requires
            old(self).wf(),
        ensures
            final(self).wf(),
            (final(self)@, action@) == old(self)@.on_message(
                MessageView::TransferStart {
                    id: id@,
                    fingerprint: sent,
                    entries: entry_views(entries@),
                },
            ),
    {
        proof {
            law_seen_ids(self@.seen, id@);
        }
        if !self.seen.insert(id.as_str()) {
            return Action::Ignore;
        }
        match IncomingTransfer::start(id.as_str(), entries) {
            Err(error) => Action::Refuse(Refusal::Manifest(error)),
            Ok(transfer) => {
                proof {
                    lemma_without(self@.transfers, EVERYONE, id@);
                }
                let _ = self.take_transfer(id.as_str());
                let ghost before = *self;
                let session = Session {
                    key: SessionKey::new(EVERYONE, id),
                    last_activity: 0,
                    size: 0,
                    item: transfer,
                };
                self.active_transfers.push(session);
                proof {
                    lemma_push(before@.transfers, session@);
                    assert forall|i: int| 0 <= i < self.active_transfers.items@.len() implies (
                    #[trigger] self.active_transfers.items@[i]).item.wf() by {
                        if i < before.active_transfers.items@.len() {
                            assert(self.active_transfers.items@[i]
                                == before.active_transfers.items@[i]);
                        }
                    }
                }
                Action::Begin
            },
        }
    }

    fn on_transfer_chunk(
        &mut self,
        id: String,
        file_index: u32,
        offset: u64,
        bytes: Vec<u8>,
    ) -> (action: Action)
        requires
            old(self).wf(),
        ensures
            final(self).wf(),
            (final(self)@, action@) == old(self)@.on_message(
                MessageView::TransferChunk { id: id@, file_index, offset, bytes: bytes@ },
            ),
    {
        let at: usize = match self.active_transfers.find(EVERYONE, id.as_str()) {
            Some(at) => at,
            None => {
                return Action::Refuse(Refusal::UnknownTransfer);
            },
        };
        let ghost before = *self;
        let ghost session = self@.transfers[at as int];
        proof {
            assert(session == self.active_transfers.items@[at as int]@);
        }
        match self.active_transfers.items[at].item.accept_chunk(
            file_index,
            offset,
            bytes.as_slice(),
        ) {
            Ok(create) => {
                let ghost after = SessionView {
                    item: session.item.with_chunk(file_index, bytes@),
                    ..session
                };
                proof {
                    assert(self.active_transfers.items@[at as int]@ == after);
                    assert(self@.transfers == before@.transfers.update(at as int, after));
                    lemma_update(before@.transfers, at as int, after);
                }
                let entry: usize = match self.active_transfers.items[at].item.entry_of(file_index) {
                    Some(entry) => entry,
                    None => {
                        return Action::Ignore;
                    },
                };
                Action::Write { entry, create, bytes }
            },
            Err(error) => {
                proof {
                    assert(self.active_transfers.items@ == before.active_transfers.items@);
                    assert(self@ == before@);
                }
                self.give_up(id.as_str(), Refusal::Chunk(error))
            },
        }
    }

    fn on_file_end(&mut self, id: String, file_index: u32, sha256: [u8; 32]) -> (action: Action)
        requires
            old(self).wf(),
        ensures
            final(self).wf(),
            (final(self)@, action@) == old(self)@.on_message(
                MessageView::TransferFileEnd { id: id@, file_index, sha256: sha256@ },
            ),
    {
        let at: usize = match self.active_transfers.find(EVERYONE, id.as_str()) {
            Some(at) => at,
            None => {
                return Action::Refuse(Refusal::UnknownTransfer);
            },
        };
        let ghost before = *self;
        let ghost session = self@.transfers[at as int];
        proof {
            assert(session == self.active_transfers.items@[at as int]@);
        }
        match self.active_transfers.items[at].item.finish_file(file_index, sha256) {
            Ok(create) => {
                let ghost after = SessionView { item: session.item.with_end(file_index), ..session };
                proof {
                    assert(self.active_transfers.items@[at as int]@ == after);
                    assert(self@.transfers == before@.transfers.update(at as int, after));
                    lemma_update(before@.transfers, at as int, after);
                }
                let entry: usize = match self.active_transfers.items[at].item.entry_of(file_index) {
                    Some(entry) => entry,
                    None => {
                        return Action::Ignore;
                    },
                };
                Action::Commit { entry, create }
            },
            Err(error) => {
                proof {
                    assert(self.active_transfers.items@ == before.active_transfers.items@);
                    assert(self@ == before@);
                }
                self.give_up(id.as_str(), Refusal::FileEnd(error))
            },
        }
    }

    fn on_transfer_end(&mut self, id: String) -> (action: Action)
        requires
            old(self).wf(),
        ensures
            final(self).wf(),
            (final(self)@, action@) == old(self)@.on_message(
                MessageView::TransferEnd { id: id@ },
            ),
            action matches Action::Finish { transfer } ==> transfer.wf(),
    {
        match self.take_transfer(id.as_str()) {
            None => Action::Refuse(Refusal::UnknownTransfer),
            Some(transfer) => {
                if transfer.all_finished() {
                    Action::Finish { transfer }
                } else {
                    Action::GiveUp {
                        directory: String::from_str(transfer.directory()),
                        refusal: Refusal::TransferEnd(TransferError::Unfinished),
                    }
                }
            },
        }
    }

    /// Decides what comes of a message.
    pub fn handle_message(&mut self, message: WireMessage) -> (action: Action)
        requires
            old(self).wf(),
        ensures
            final(self).wf(),
            (final(self)@, action@) == old(self)@.on_message(message@),
            action matches Action::Finish { transfer } ==> transfer.wf(),
    {
        match message {
            WireMessage::Clipboard { id, payload } => {
                proof {
                    law_seen_ids(self@.seen, id@);
                }
                if !self.seen.insert(id.as_str()) {
                    return Action::Ignore;
                }
                let hash: u64 = fingerprint(&payload);
                Action::Apply { fingerprint: hash, payload }
            },
            WireMessage::TransferStart { id, fingerprint: sent, entries } => self.on_transfer_start(
                id,
                sent,
                entries,
            ),
            WireMessage::TransferChunk { id, file_index, offset, bytes } => self.on_transfer_chunk(
                id,
                file_index,
                offset,
                bytes,
            ),
            WireMessage::TransferFileEnd { id, file_index, sha256 } => self.on_file_end(
                id,
                file_index,
                sha256,
            ),
            WireMessage::TransferEnd { id } => self.on_transfer_end(id),
            WireMessage::TransferAbort { id } => {
                match self.take_transfer(id.as_str()) {
                    Some(transfer) => Action::Aborted {
                        directory: String::from_str(transfer.directory()),
                    },
                    None => Action::Ignore,
                }
            },
        }
    }

    /// Takes note that a clipboard that came in one message is in place.
    pub fn payload_applied(&mut self, fingerprint: u64)
        requires
            old(self).wf(),
        ensures
            final(self).wf(),
            final(self)@ == old(self)@.received(fingerprint),
    {
        self.last_fingerprint = Some(fingerprint);
    }

    /// Takes note that files that came in are on the clipboard.
    pub fn transfer_applied(&mut self, fingerprint: u64)
        requires
            old(self).wf(),
        ensures
            final(self).wf(),
            final(self)@ == old(self)@.settled(fingerprint),
    {
        self.last_fingerprint = Some(fingerprint);
        self.last_attempted_fingerprint = None;
        self.last_send_error = None;
    }

    /// Takes note of what is on the clipboard now. If it is not what was sent or came
    /// in last, it is to be sent, in a message with the identifier; and the attempt
    /// is announced unless it is a repeated one.
    pub fn plan_send(&mut self, fingerprint: u64) -> (r: Option<(String, bool)>)
        requires
            old(self).wf(),
            old(self)@.sequence < u64::MAX,
        ensures
            final(self).wf(),
            r is Some <==> old(self)@.wants(fingerprint),
            r is None ==> final(self)@ == (DirectState { capture_error: None, ..old(self)@ }),
            r matches Some((id, announce)) ==> {
                &&& id@ == old(self)@.next_id()
                &&& announce == (old(self)@.attempted_fingerprint != Some(fingerprint))
                &&& final(self)@ == old(self)@.attempted(fingerprint)
            },
    {
        self.last_capture_error = None;
        let same = match self.last_fingerprint {
            Some(last) => last == fingerprint,
            None => false,
        };
        if same {
            return None;
        }
        self.sequence = self.sequence + 1;
        let mut id = self.origin.clone();
        id.push('-');
        let number = decimal_text(self.sequence as u128);
        id.append(number.as_str());
        let announce = match self.last_attempted_fingerprint {
            Some(last) => last != fingerprint,
            None => true,
        };
        self.last_attempted_fingerprint = Some(fingerprint);
        Some((id, announce))
    }

    /// Takes note that the clipboard was sent, or why it was not; only what was sent
    /// is remembered, so that the rest is tried again. The answer says whether the
    /// reason is a new one.
    pub fn finish_send(&mut self, fingerprint: u64, error: Option<String>) -> (announce: bool)
        requires
            old(self).wf(),
        ensures
            final(self).wf(),
            announce == (error is Some && text_view(error) != old(self)@.send_error),
            final(self)@ == match error {
                Some(message) => old(self)@.send_failed(message@),
                None => old(self)@.settled(fingerprint),
            },
    {
        match error {
            Some(message) => {
                let announce = match &self.last_send_error {
                    None => true,
                    Some(last) => !same_text(message.as_str(), last.as_str()),
                };
                self.last_send_error = Some(message);
                announce
            },
            None => {
                self.last_fingerprint = Some(fingerprint);
                self.last_attempted_fingerprint = None;
                self.last_send_error = None;
                false
            },
        }
    }

    /// Takes note that the clipboard could not be read. The answer says whether the
    /// reason is a new one.
    pub fn capture_failed(&mut self, message: String) -> (announce: bool)
        requires
            old(self).wf(),
        ensures
            final(self).wf(),
            announce == (old(self)@.capture_error != Some(message@)),
            final(self)@ == (DirectState { capture_error: Some(message@), ..old(self)@ }),
    {
        let announce = match &self.last_capture_error {
            None => true,
            Some(last) => !same_text(message.as_str(), last.as_str()),
        };
        if announce {
            self.last_capture_error = Some(message);
        }
        announce
    }
}

/// A message that was seen has no effect when it comes again: neither a clipboard nor
/// the start of a transfer.
pub proof fn law_repeated_messages_are_ignored(state: DirectState, message: MessageView)
    requires
        state.valid(),
        message is Clipboard || message is TransferStart,
    ensures
        state.on_message(message).0.on_message(message) == (
            state.on_message(message).0,
            ActionView::Ignore,
        ),
{
    let id = match message {
        MessageView::Clipboard { id, .. } => id,
        MessageView::TransferStart { id, .. } => id,
        _ => seq![],
    };
    law_seen_ids(state.seen, id);
}

/// A clipboard that could not be sent is tried again, in a message with another
/// identifier. Once it was sent or came in it is not sent again, whatever other clipboard
/// could not be sent since.
pub proof fn law_only_what_was_sent_is_remembered(
    state: DirectState,
    fingerprint: u64,
    other: u64,
    message: Seq<char>,
)
    ensures
        state.wants(fingerprint) ==> state.attempted(fingerprint).send_failed(message).wants(
            fingerprint,
        ),
        state.sequence < u64::MAX - 1 ==> state.attempted(fingerprint).send_failed(
            message,
        ).next_id() != state.next_id(),
        !state.settled(fingerprint).wants(fingerprint),
        !state.received(fingerprint).wants(fingerprint),
        !state.settled(fingerprint).attempted(other).send_failed(message).wants(fingerprint),
        !state.received(fingerprint).attempted(other).send_failed(message).wants(fingerprint),
{
    let after = state.attempted(fingerprint).send_failed(message);
    if state.sequence < u64::MAX - 1 && after.next_id() == state.next_id() {
        law_message_ids_are_unique(
            state.origin,
            (after.sequence + 1) as nat,
            (state.sequence + 1) as nat,
        );
    }
}

} // verus!
