//! Sending files: what is sent of a capture, and what each look at the disk does.

use sha2::Sha256;
use std::sync::Arc;
use vstd::prelude::*;
use vstd::string::StringExecFns;

use crate::capture::{
    local_views, manifest_copy, manifest_of, CapturedFiles, FileKind, FileMeta, LocalView,
};
use crate::digest::{absorbed, sha256, sha256_finish, sha256_new, sha256_update};
use crate::manifest::{file_numbers, manifest_fault};
use crate::progress::FileView;
use crate::receive::{started, TransferView};
use crate::wire::{
    checked_total, total_size, EntryView, MessageView, TransferEntryKind, WireMessage,
    CHUNK_SIZE, MAX_TRANSFER_BYTES,
};

verus! {

/// Why files are not sent, or not further.
#[derive(Debug, Clone, Copy, PartialEq, Eq, Structural)]
pub enum SendError {
    SizeOverflow,
    TooLarge,
    /// The file changed before it was sent.
    ChangedBefore,
    /// The file grew while it was sent.
    Grew,
    /// The file changed while it was sent.
    ChangedMeanwhile,
}

/// How far files have been sent.
pub ghost struct SendView {
    pub id: Seq<char>,
    pub entries: Seq<LocalView>,
    /// How many entries are done with.
    pub position: nat,
    /// How many files are done with.
    pub file_index: nat,
    /// What was read and sent of the file at the position.
    pub sent: Seq<u8>,
}

/// Whether what is on disk is still what was captured.
pub open spec fn unchanged(local: LocalView, meta: FileMeta) -> bool {
    &&& meta.kind == FileKind::File
    &&& meta.size == local.entry.size
    &&& meta.mode == local.entry.mode
    &&& meta.modified_nanos == local.modified
}

/// The first file at a position or behind it; the end where there is none.
pub open spec fn next_file(entries: Seq<LocalView>, position: nat) -> nat
    decreases entries.len() - position,
{
    if position >= entries.len() {
        entries.len()
    } else if entries[position as int].entry.kind == TransferEntryKind::File {
        position
    } else {
        next_file(entries, position + 1)
    }
}

impl SendView {
    /// The files done with are those among the entries done with, and no file was
    /// sent further than captured.
    pub open spec fn valid(self) -> bool {
        &&& self.position <= self.entries.len()
        &&& self.file_index == file_numbers(
            manifest_of(self.entries).take(self.position as int),
        ).len()
        &&& self.sent.len() > 0 ==> self.position < self.entries.len()
        &&& self.position < self.entries.len() ==> self.sent.len()
            <= self.entries[self.position as int].entry.size
    }

    /// The entry at the position.
    pub open spec fn local(self) -> LocalView {
        self.entries[self.position as int]
    }

    /// Whether a file is at the position.
    pub open spec fn at_file(self) -> bool {
        self.position < self.entries.len() && self.local().entry.kind == TransferEntryKind::File
    }

    /// At the next file, or at the end.
    pub open spec fn moved(self) -> SendView {
        SendView { position: next_file(self.entries, self.position), ..self }
    }

    /// The message that carries what was read next.
    pub open spec fn chunk_message(self, bytes: Seq<u8>) -> MessageView {
        MessageView::TransferChunk {
            id: self.id,
            file_index: self.file_index as u32,
            offset: self.sent.len() as u64,
            bytes,
        }
    }

    /// With what was read next sent too.
    pub open spec fn with_chunk(self, bytes: Seq<u8>) -> SendView {
        SendView { sent: self.sent + bytes, ..self }
    }

    /// The message that ends the file at the position.
    pub open spec fn end_message(self) -> MessageView {
        MessageView::TransferFileEnd {
            id: self.id,
            file_index: self.file_index as u32,
            sha256: sha256(self.sent),
        }
    }

    /// With the file at the position done with.
    pub open spec fn with_end(self) -> SendView {
        SendView {
            position: self.position + 1,
            file_index: self.file_index + 1,
            sent: seq![],
            ..self
        }
    }
}

/// Files that are going out.
pub struct FileSender {
    id: String,
    files: Arc<CapturedFiles>,
    position: usize,
    file_index: u32,
    offset: u64,
    hasher: Sha256,
}

impl View for FileSender {
    type V = SendView;

    closed spec fn view(&self) -> SendView {
        SendView {
            id: self.id@,
            entries: local_views(self.files.entries@),
            position: self.position as nat,
            file_index: self.file_index as nat,
            sent: absorbed(self.hasher),
        }
    }
}

impl FileSender {
    /// The parts fit each other.
    pub closed spec fn wf(self) -> bool {
        &&& self@.valid()
        &&& self.files.wf()
        &&& self.offset == absorbed(self.hasher).len()
        &&& total_size(self.files.manifest()) <= MAX_TRANSFER_BYTES
    }

    /// Begins to send captured files; the first message is their manifest. Files
    /// that are too large together are refused.
    pub fn send_file_transfer(id: &str, files: Arc<CapturedFiles>) -> (r: Result<
        (FileSender, WireMessage),
        SendError,
    >)
        requires
            files.wf(),
        ensures
            r is Ok <==> total_size(files.manifest()) <= MAX_TRANSFER_BYTES,
            r matches Err(error) ==> error == if total_size(files.manifest()) > u64::MAX {
                SendError::SizeOverflow
            } else {
                SendError::TooLarge
            },
            r matches Ok((sender, message)) ==> {
                &&& sender.wf()
                &&& sender@ == (SendView {
                    id: id@,
                    entries: local_views(files.entries@),
                    position: 0,
                    file_index: 0,
                    sent: seq![],
                })
                &&& message@ == (MessageView::TransferStart { id: id@, entries: files.manifest() })
            },
    {
        let entries = manifest_copy(&files.entries);
        let total: u64 = match checked_total(&entries) {
            Some(total) => total,
            None => {
                return Err(SendError::SizeOverflow);
            },
        };
        if total > MAX_TRANSFER_BYTES {
            return Err(SendError::TooLarge);
        }
        let sender = FileSender {
            id: String::from_str(id),
            files,
            position: 0,
            file_index: 0,
            offset: 0,
            hasher: sha256_new(),
        };
        let message = WireMessage::TransferStart { id: String::from_str(id), entries };
        proof {
            assert(file_numbers(manifest_of(sender@.entries).take(0)).len() == 0);
        }
        Ok((sender, message))
    }

    /// Goes on to the next file. The answer is the number of the path that it
    /// comes from; nothing once all files are done with.
    pub fn next_source(&mut self) -> (r: Option<u64>)
        requires
            old(self).wf(),
            old(self)@.sent.len() == 0,
        ensures
            final(self).wf(),
            final(self)@ == old(self)@.moved(),
            r is None <==> final(self)@.position == final(self)@.entries.len(),
            r matches Some(source) ==> final(self)@.at_file() && final(self)@.local().source
                == Some(source),
    {
        let ghost before = self@;
        let ghost manifest = manifest_of(before.entries);
        while self.position < self.files.entries.len()
            invariant
                before == old(self)@,
                self.wf(),
                self@.sent.len() == 0,
                self@.id == before.id,
                self@.entries == before.entries,
                self@.sent == before.sent,
                self@.file_index == before.file_index,
                manifest == manifest_of(before.entries),
                next_file(before.entries, self@.position) == next_file(
                    before.entries,
                    before.position,
                ),
            decreases self.files.entries@.len() - self.position,
        {
            let position = self.position;
            proof {
                assert(self@.entries[position as int] == self.files.entries@[position as int]@);
                assert(manifest[position as int] == self.files.entries@[position as int].entry@);
                assert(manifest.take(position as int + 1).drop_last() == manifest.take(
                    position as int,
                ));
            }
            if self.files.entries[position].entry.kind == TransferEntryKind::File {
                return self.files.entries[position].source;
            }
            self.position = position + 1;
        }
        None
    }

    /// Whether the file at the position is still what was captured, before it is
    /// read.
    pub fn check_before(&self, meta: FileMeta) -> (r: Result<(), SendError>)
        requires
            self.wf(),
            self@.at_file(),
        ensures
            r is Ok <==> unchanged(self@.local(), meta),
            r matches Err(error) ==> error == SendError::ChangedBefore,
    {
        if self.is_unchanged(meta) {
            Ok(())
        } else {
            Err(SendError::ChangedBefore)
        }
    }

    fn is_unchanged(&self, meta: FileMeta) -> (r: bool)
        requires
            self.wf(),
            self@.at_file(),
        ensures
            r == unchanged(self@.local(), meta),
    {
        let local = &self.files.entries[self.position];
        proof {
            assert(self@.local() == local@);
        }
        let same_mode = match (meta.mode, local.entry.mode) {
            (None, None) => true,
            (Some(a), Some(b)) => a == b,
            _ => false,
        };
        meta.kind == FileKind::File && meta.size == local.entry.size && same_mode
            && meta.modified_nanos == local.modified_nanos
    }

    /// Takes what was read next of the file, one chunk at most, and gives the message
    /// that carries it. A file that is longer than captured is not sent further.
    pub fn send_chunk(&mut self, bytes: Vec<u8>) -> (r: Result<WireMessage, SendError>)
        requires
            old(self).wf(),
            old(self)@.at_file(),
            0 < bytes@.len() <= CHUNK_SIZE,
        ensures
            final(self).wf(),
            r is Ok <==> old(self)@.sent.len() + bytes@.len() <= old(self)@.local().entry.size,
            r matches Err(error) ==> error == SendError::Grew && *final(self) == *old(self),
            r matches Ok(message) ==> message@ == old(self)@.chunk_message(bytes@) && final(self)@
                == old(self)@.with_chunk(bytes@),
    {
        proof {
            assert(self@.local() == self.files.entries@[self.position as int]@);
        }
        let length: u64 = bytes.len() as u64;
        let size: u64 = self.files.entries[self.position].entry.size;
        if length > size - self.offset {
            return Err(SendError::Grew);
        }
        let offset: u64 = self.offset;
        sha256_update(&mut self.hasher, bytes.as_slice());
        self.offset = offset + length;
        Ok(
            WireMessage::TransferChunk {
                id: self.id.clone(),
                file_index: self.file_index,
                offset,
                bytes,
            },
        )
    }

    /// Ends the file, of which nothing more can be read, and gives the message
    /// that says so. All of it was sent, and it is still what was captured.
    pub fn end_file(&mut self, meta: FileMeta) -> (r: Result<WireMessage, SendError>)
        requires
            old(self).wf(),
            old(self)@.at_file(),
        ensures
            final(self).wf(),
            r is Ok <==> old(self)@.sent.len() == old(self)@.local().entry.size && unchanged(
                old(self)@.local(),
                meta,
            ),
            r matches Err(error) ==> error == SendError::ChangedMeanwhile && *final(self) == *old(
                self),
            r matches Ok(message) ==> message@ == old(self)@.end_message() && final(self)@ == old(
                self)@.with_end(),
    {
        let ghost before = self@;
        proof {
            assert(self@.local() == self.files.entries@[self.position as int]@);
            let manifest = manifest_of(before.entries);
            let position = before.position as int;
            assert(manifest.take(position + 1).drop_last() == manifest.take(position));
            crate::receive::lemma_file_numbers(manifest.take(position + 1));
        }
        if self.offset != self.files.entries[self.position].entry.size {
            return Err(SendError::ChangedMeanwhile);
        }
        if !self.is_unchanged(meta) {
            return Err(SendError::ChangedMeanwhile);
        }
        let digest = sha256_finish(&self.hasher);
        let message = WireMessage::TransferFileEnd {
            id: self.id.clone(),
            file_index: self.file_index,
            sha256: digest,
        };
        self.position = self.position + 1;
        self.file_index = self.file_index + 1;
        self.offset = 0;
        self.hasher = sha256_new();
        Ok(message)
    }

    /// The message that ends the transfer, once all files are done with.
    pub fn end_message(&self) -> (message: WireMessage)
        requires
            self@.position == self@.entries.len(),
        ensures
            message@ == (MessageView::TransferEnd { id: self@.id }),
    {
        WireMessage::TransferEnd { id: self.id.clone() }
    }
}

/// The message that takes a transfer back where it cannot go on, or could not
/// begin.
pub fn abort_message(id: &str) -> (message: WireMessage)
    ensures
        message@ == (MessageView::TransferAbort { id: id@ }),
{
    WireMessage::TransferAbort { id: String::from_str(id) }
}

/// How sending a transfer ended.
#[derive(Debug, Clone, Copy, PartialEq, Eq, Structural)]
pub enum SendOutcome {
    /// All its messages went out.
    Sent,
    /// It could not begin, or not go on.
    Failed,
}

/// What is sent after the messages of a transfer, if anything: where it failed, the
/// message that takes it back.
pub open spec fn last_word(id: Seq<char>, outcome: SendOutcome) -> Option<MessageView> {
    match outcome {
        SendOutcome::Sent => None,
        SendOutcome::Failed => Some(MessageView::TransferAbort { id }),
    }
}

/// Decides what is sent after the messages of a transfer: nothing where all went out, and
/// else the message that takes it back.
pub fn after_send(id: &str, outcome: SendOutcome) -> (message: Option<WireMessage>)
    ensures
        match last_word(id@, outcome) {
            Some(word) => message matches Some(sent) && sent@ == word,
            None => message is None,
        },
{
    match outcome {
        SendOutcome::Sent => None,
        SendOutcome::Failed => Some(abort_message(id)),
    }
}

/// All that was read of a file, piece by piece.
pub open spec fn whole(pieces: Seq<Seq<u8>>) -> Seq<u8>
    decreases pieces.len(),
{
    if pieces.len() == 0 {
        seq![]
    } else {
        pieces[0] + whole(pieces.skip(1))
    }
}

/// Whether a file can be read in these pieces.
pub open spec fn readable(pieces: Seq<Seq<u8>>) -> bool {
    forall|i: int| 0 <= i < pieces.len() ==> 0 < (#[trigger] pieces[i]).len() <= CHUNK_SIZE
}

/// The messages that send the file at the position, read in pieces.
pub open spec fn file_messages(view: SendView, pieces: Seq<Seq<u8>>) -> Seq<MessageView>
    decreases pieces.len(),
{
    if pieces.len() == 0 {
        seq![view.end_message()]
    } else {
        seq![view.chunk_message(pieces[0])] + file_messages(
            view.with_chunk(pieces[0]),
            pieces.skip(1),
        )
    }
}

/// The messages that send the files from the position on, each read in pieces.
pub open spec fn transfer_messages(view: SendView, contents: Seq<Seq<Seq<u8>>>) -> Seq<MessageView>
    decreases contents.len(),
{
    if contents.len() == 0 {
        seq![]
    } else {
        let at = SendView { position: next_file(view.entries, view.position), ..view };
        file_messages(at, contents[0]) + transfer_messages(at.with_end(), contents.skip(1))
    }
}

/// What a receiver has after messages that it accepts.
pub open spec fn accepted_all(view: TransferView, messages: Seq<MessageView>) -> Option<TransferView>
    decreases messages.len(),
{
    if messages.len() == 0 {
        Some(view)
    } else {
        match messages[0] {
            MessageView::TransferChunk { id, file_index, offset, bytes } => {
                if view.chunk_fault(file_index, offset, bytes) is None {
                    accepted_all(view.with_chunk(file_index, bytes), messages.skip(1))
                } else {
                    None
                }
            },
            MessageView::TransferFileEnd { id, file_index, sha256 } => {
                if view.end_fault(file_index, sha256) is None {
                    accepted_all(view.with_end(file_index), messages.skip(1))
                } else {
                    None
                }
            },
            _ => None,
        }
    }
}

/// A transfer with one file there whole.
spec fn with_file(view: TransferView, index: int, bytes: Seq<u8>) -> TransferView {
    TransferView {
        files: view.files.update(
            index,
            FileView { received: bytes, finished: true, ..view.files[index] },
        ),
        ..view
    }
}

proof fn lemma_file_arrives(
    sender: SendView,
    view: TransferView,
    pieces: Seq<Seq<u8>>,
    rest: Seq<MessageView>,
)
    requires
        readable(pieces),
        sender.file_index < view.files.len() <= u32::MAX,
        ({
            let file = view.files[sender.file_index as int];
            &&& file.received == sender.sent
            &&& !file.finished
            &&& file.expected == sender.sent.len() + whole(pieces).len()
            &&& file.expected <= u64::MAX
        }),
    ensures
        accepted_all(view, file_messages(sender, pieces) + rest) == accepted_all(
            with_file(view, sender.file_index as int, sender.sent + whole(pieces)),
            rest,
        ),
    decreases pieces.len(),
{
    let index = sender.file_index as int;
    let file = view.files[index];
    let messages = file_messages(sender, pieces) + rest;
    if pieces.len() == 0 {
        assert(messages[0] == sender.end_message());
        assert(messages.skip(1) == rest);
        assert(sender.sent + whole(pieces) == sender.sent);
        assert(view.with_end(index as u32).files == with_file(view, index, sender.sent).files);
    } else {
        let piece = pieces[0];
        let later = pieces.skip(1);
        assert(messages[0] == sender.chunk_message(piece));
        assert(messages.skip(1) == file_messages(sender.with_chunk(piece), later) + rest);
        assert forall|i: int| 0 <= i < later.len() implies 0 < (#[trigger] later[i]).len()
            <= CHUNK_SIZE by {
            assert(later[i] == pieces[i + 1]);
        }
        let next = view.with_chunk(index as u32, piece);
        lemma_file_arrives(sender.with_chunk(piece), next, later, rest);
        assert(sender.with_chunk(piece).sent + whole(later) == sender.sent + whole(pieces));
        assert(with_file(next, index, sender.sent + whole(pieces)).files == with_file(
            view,
            index,
            sender.sent + whole(pieces),
        ).files);
    }
}

/// Whether nothing has come in of a file that has the size of these pieces.
spec fn awaits(file: FileView, pieces: Seq<Seq<u8>>) -> bool {
    &&& file.received.len() == 0
    &&& !file.finished
    &&& file.expected == whole(pieces).len()
    &&& file.expected <= u64::MAX
}

proof fn lemma_files_arrive(sender: SendView, view: TransferView, contents: Seq<Seq<Seq<u8>>>)
    requires
        sender.sent.len() == 0,
        view.files.len() <= u32::MAX,
        sender.file_index + contents.len() == view.files.len(),
        forall|k: int| 0 <= k < contents.len() ==> readable(#[trigger] contents[k]),
        forall|k: int|
            0 <= k < contents.len() ==> awaits(
                view.files[sender.file_index + k],
                #[trigger] contents[k],
            ),
    ensures
        accepted_all(view, transfer_messages(sender, contents)) matches Some(after) && {
            &&& after.directory == view.directory
            &&& after.entries == view.entries
            &&& after.files.len() == view.files.len()
            &&& forall|k: int|
                0 <= k < sender.file_index ==> #[trigger] after.files[k] == view.files[k]
            &&& forall|k: int|
                sender.file_index <= k < after.files.len() ==> (#[trigger] after.files[k]).finished
                    && after.files[k].received == whole(contents[k - sender.file_index])
        },
    decreases contents.len(),
{
    if contents.len() > 0 {
        let index = sender.file_index as int;
        let at = SendView { position: next_file(sender.entries, sender.position), ..sender };
        let later = contents.skip(1);
        let rest = transfer_messages(at.with_end(), later);
        assert(readable(contents[0]));
        assert(awaits(view.files[sender.file_index + 0int], contents[0]));
        assert(view.files[index].received == sender.sent);
        lemma_file_arrives(at, view, contents[0], rest);
        assert(at.sent + whole(contents[0]) == whole(contents[0]));
        let next = with_file(view, index, whole(contents[0]));
        assert forall|k: int| 0 <= k < later.len() implies readable(#[trigger] later[k]) by {
            assert(later[k] == contents[k + 1]);
        }
        let onward = at.with_end();
        assert(onward.file_index == index + 1);
        assert forall|k: int| 0 <= k < later.len() implies awaits(
            next.files[onward.file_index + k],
            #[trigger] later[k],
        ) by {
            assert(later[k] == contents[k + 1]);
            assert(next.files[onward.file_index + k] == view.files[sender.file_index + (k + 1)]);
        }
        lemma_files_arrive(onward, next, later);
        let after = accepted_all(next, rest)->0;
        assert(accepted_all(view, transfer_messages(sender, contents)) == Some(after));
        assert forall|k: int| index <= k < after.files.len() implies (
        #[trigger] after.files[k]).finished && after.files[k].received == whole(
            contents[k - index],
        ) by {
            if k == index {
                assert(after.files[k] == next.files[k]);
            } else {
                assert(later[k - (index + 1)] == contents[k - index]);
            }
        }
    }
}

/// Files that are sent arrive: whatever the pieces in which they were read, the
/// receiver accepts every message in turn, and then every file is finished and
/// holds the bytes that were read.
pub proof fn law_file_transfer_round_trip(
    sender: SendView,
    directory: Seq<char>,
    contents: Seq<Seq<Seq<u8>>>,
)
    requires
        sender.position == 0,
        sender.file_index == 0,
        sender.sent.len() == 0,
        manifest_fault(manifest_of(sender.entries)) is None,
        contents.len() == file_numbers(manifest_of(sender.entries)).len(),
        forall|k: int|
            0 <= k < contents.len() ==> readable(#[trigger] contents[k]) && whole(contents[k]).len()
                == manifest_of(sender.entries)[file_numbers(manifest_of(sender.entries))[k]].size,
    ensures
        accepted_all(
            started(directory, manifest_of(sender.entries)),
            transfer_messages(sender, contents),
        ) matches Some(after) && {
            &&& after.complete()
            &&& forall|k: int|
                0 <= k < contents.len() ==> (#[trigger] after.files[k]).received == whole(
                    contents[k],
                )
        },
{
    let manifest = manifest_of(sender.entries);
    crate::receive::lemma_file_numbers(manifest);
    let view = started(directory, manifest);
    assert forall|k: int| 0 <= k < contents.len() implies awaits(
        view.files[sender.file_index + k],
        #[trigger] contents[k],
    ) by {
        assert(readable(contents[k]));
    }
    lemma_files_arrive(sender, view, contents);
}

/// What a sender does next.
pub ghost enum SendStep {
    /// Go on to the next file.
    Next,
    /// Send what was read next.
    Chunk(Seq<u8>),
    /// End the file.
    End,
}

/// Whether a sender can do this without a fault.
pub open spec fn can(view: SendView, step: SendStep) -> bool {
    match step {
        SendStep::Next => view.sent.len() == 0,
        SendStep::Chunk(bytes) => {
            &&& view.at_file()
            &&& 0 < bytes.len() <= CHUNK_SIZE
            &&& view.sent.len() + bytes.len() <= view.local().entry.size
        },
        SendStep::End => view.at_file() && view.sent.len() == view.local().entry.size,
    }
}

/// The sender afterwards.
pub open spec fn after_step(view: SendView, step: SendStep) -> SendView {
    match step {
        SendStep::Next => view.moved(),
        SendStep::Chunk(bytes) => view.with_chunk(bytes),
        SendStep::End => view.with_end(),
    }
}

/// Whether a sender can do all this in turn, and then all files are done with.
pub open spec fn completes(view: SendView, steps: Seq<SendStep>) -> bool
    decreases steps.len(),
{
    if steps.len() == 0 {
        view.position == view.entries.len()
    } else {
        can(view, steps[0]) && completes(after_step(view, steps[0]), steps.skip(1))
    }
}

/// The messages that come of it.
pub open spec fn run_messages(view: SendView, steps: Seq<SendStep>) -> Seq<MessageView>
    decreases steps.len(),
{
    if steps.len() == 0 {
        seq![]
    } else {
        let later = run_messages(after_step(view, steps[0]), steps.skip(1));
        match steps[0] {
            SendStep::Next => later,
            SendStep::Chunk(bytes) => seq![view.chunk_message(bytes)] + later,
            SendStep::End => seq![view.end_message()] + later,
        }
    }
}

/// What was read of each file, in pieces.
pub open spec fn run_contents(steps: Seq<SendStep>) -> Seq<Seq<Seq<u8>>>
    decreases steps.len(),
{
    if steps.len() == 0 {
        seq![]
    } else {
        let later = run_contents(steps.skip(1));
        match steps[0] {
            SendStep::Next => later,
            SendStep::Chunk(bytes) => if later.len() == 0 {
                later
            } else {
                later.update(0, seq![bytes] + later[0])
            },
            SendStep::End => seq![Seq::<Seq<u8>>::empty()] + later,
        }
    }
}

/// The files of a part of a manifest come first among all its files.
proof fn lemma_numbers_begin(entries: Seq<EntryView>, n: int)
    requires
        0 <= n <= entries.len(),
    ensures
        file_numbers(entries.take(n)).is_prefix_of(file_numbers(entries)),
    decreases entries.len(),
{
    if n == entries.len() {
        assert(entries.take(n) == entries);
    } else {
        let before = entries.drop_last();
        lemma_numbers_begin(before, n);
        assert(before.take(n) == entries.take(n));
        assert(file_numbers(before).is_prefix_of(file_numbers(entries)));
    }
}

proof fn lemma_number_at(entries: Seq<EntryView>, n: int)
    requires
        0 <= n < entries.len(),
    ensures
        entries[n].kind == TransferEntryKind::File ==> file_numbers(entries.take(n + 1))
            == file_numbers(entries.take(n)).push(n) && file_numbers(entries.take(n)).len()
            < file_numbers(entries).len() && file_numbers(
            entries,
        )[file_numbers(entries.take(n)).len() as int] == n,
        entries[n].kind == TransferEntryKind::Directory ==> file_numbers(entries.take(n + 1))
            == file_numbers(entries.take(n)),
{
    let part = entries.take(n + 1);
    assert(part.drop_last() == entries.take(n));
    lemma_numbers_begin(entries, n + 1);
    if entries[n].kind == TransferEntryKind::File {
        let at = file_numbers(entries.take(n)).len() as int;
        assert(part.last() == entries[n]);
        assert(file_numbers(part)[at] == n);
        assert(file_numbers(entries)[at] == file_numbers(part)[at]);
    }
}

proof fn lemma_moved(view: SendView)
    requires
        view.valid(),
        view.sent.len() == 0,
    ensures
        view.moved().valid(),
        view.moved().at_file() || view.moved().position == view.entries.len(),
        view.at_file() ==> view.moved() == view,
    decreases view.entries.len() - view.position,
{
    let manifest = manifest_of(view.entries);
    if view.position < view.entries.len() && !view.at_file() {
        let next = SendView { position: view.position + 1, ..view };
        assert(manifest[view.position as int] == view.entries[view.position as int].entry);
        lemma_number_at(manifest, view.position as int);
        lemma_moved(next);
        assert(next.moved() == view.moved());
    }
}

proof fn lemma_run(view: SendView, steps: Seq<SendStep>)
    requires
        view.valid(),
        completes(view, steps),
    ensures
        ({
            let contents = run_contents(steps);
            let manifest = manifest_of(view.entries);
            let numbers = file_numbers(manifest);
            &&& view.file_index + contents.len() == numbers.len()
            &&& forall|k: int| 0 <= k < contents.len() ==> readable(#[trigger] contents[k])
            &&& forall|k: int|
                0 <= k < contents.len() && !(k == 0 && view.at_file()) ==> whole(
                    #[trigger] contents[k],
                ).len() == manifest[numbers[view.file_index + k]].size
            &&& if view.at_file() {
                &&& contents.len() > 0
                &&& view.sent.len() + whole(contents[0]).len() == view.local().entry.size
                &&& run_messages(view, steps) == file_messages(view, contents[0])
                    + transfer_messages(view.with_end(), contents.skip(1))
            } else {
                run_messages(view, steps) == transfer_messages(view, contents)
            }
        }),
    decreases steps.len(),
{
    let contents = run_contents(steps);
    let manifest = manifest_of(view.entries);
    let numbers = file_numbers(manifest);
    if steps.len() == 0 {
        assert(manifest.take(manifest.len() as int) == manifest);
    } else {
        let rest = steps.skip(1);
        let next = after_step(view, steps[0]);
        let later = run_contents(rest);
        if view.at_file() {
            assert(manifest[view.position as int] == view.local().entry);
            lemma_number_at(manifest, view.position as int);
        }
        match steps[0] {
            SendStep::Next => {
                lemma_moved(view);
                lemma_run(next, rest);
                if !view.at_file() {
                    if next.at_file() {
                        let n = next.position as int;
                        assert(manifest[n] == next.local().entry);
                        lemma_number_at(manifest, n);
                    } else {
                        assert(next.moved() == next);
                        lemma_at_end(view, later);
                    }
                }
            },
            SendStep::Chunk(bytes) => {
                lemma_run(next, rest);
                let pieces = seq![bytes] + later[0];
                assert(contents[0] == pieces);
                assert(pieces.skip(1) == later[0]);
                assert(contents.skip(1) == later.skip(1));
                assert(readable(later[0]));
                assert(readable(pieces)) by {
                    assert forall|i: int| 0 <= i < pieces.len() implies 0 < (
                    #[trigger] pieces[i]).len() <= CHUNK_SIZE by {
                        if i > 0 {
                            assert(pieces[i] == later[0][i - 1]);
                        }
                    }
                }
                assert forall|k: int| 0 <= k < contents.len() implies readable(
                    #[trigger] contents[k],
                ) by {
                    if k > 0 {
                        assert(contents[k] == later[k]);
                    }
                }
                assert forall|k: int| 0 < k < contents.len() implies whole(
                    #[trigger] contents[k],
                ).len() == manifest[numbers[view.file_index + k]].size by {
                    assert(contents[k] == later[k]);
                }
                assert(next.with_end() == view.with_end());
                assert(run_messages(view, steps) == file_messages(view, pieces)
                    + transfer_messages(view.with_end(), contents.skip(1)));
            },
            SendStep::End => {
                let n = view.position as int;
                lemma_run(next, rest);
                assert(contents.skip(1) == later);
                assert(contents[0].len() == 0);
                assert(whole(contents[0]).len() == 0);
                assert forall|k: int| 0 <= k < contents.len() implies readable(
                    #[trigger] contents[k],
                ) by {
                    if k > 0 {
                        assert(contents[k] == later[k - 1]);
                    }
                }
                if next.at_file() {
                    lemma_moved(next);
                    assert(manifest[next.position as int] == next.local().entry);
                    lemma_number_at(manifest, next.position as int);
                    assert(transfer_messages(next, later) == file_messages(next, later[0])
                        + transfer_messages(next.with_end(), later.skip(1)));
                }
                assert(run_messages(view, steps) == seq![view.end_message()]
                    + transfer_messages(next, later));
                assert forall|k: int| 0 < k < contents.len() implies whole(
                    #[trigger] contents[k],
                ).len() == manifest[numbers[view.file_index + k]].size by {
                    assert(contents[k] == later[k - 1]);
                    assert(next.file_index + (k - 1) == view.file_index + k);
                }
            },
        }
    }
}

/// Where no file is left it makes no difference whether the sender went on.
proof fn lemma_at_end(view: SendView, contents: Seq<Seq<Seq<u8>>>)
    requires
        view.moved().position == view.entries.len(),
    ensures
        transfer_messages(view.moved(), contents) == transfer_messages(view, contents),
{
    if contents.len() > 0 {
        assert(view.moved().moved() == view.moved());
    }
}

/// Whatever a sender does until all files are done with, what it sends are the messages of
/// the transfer, in their order: every file of the manifest, in the pieces in which it
/// was read, as long as the manifest says.
pub proof fn law_run_sends_the_transfer(view: SendView, steps: Seq<SendStep>)
    requires
        view.position == 0,
        view.file_index == 0,
        view.sent.len() == 0,
        completes(view, steps),
    ensures
        ({
            let contents = run_contents(steps);
            let manifest = manifest_of(view.entries);
            &&& run_messages(view, steps) == transfer_messages(view, contents)
            &&& contents.len() == file_numbers(manifest).len()
            &&& forall|k: int|
                0 <= k < contents.len() ==> readable(#[trigger] contents[k]) && whole(
                    contents[k],
                ).len() == manifest[file_numbers(manifest)[k]].size
        }),
{
    let manifest = manifest_of(view.entries);
    assert(file_numbers(manifest.take(0)).len() == 0);
    lemma_run(view, steps);
    if view.at_file() {
        lemma_moved(view);
        assert(manifest[0] == view.local().entry);
        lemma_number_at(manifest, 0);
    }
}

/// Whether a sender can do all this in turn.
pub open spec fn can_all(view: SendView, steps: Seq<SendStep>) -> bool
    decreases steps.len(),
{
    steps.len() > 0 ==> can(view, steps[0]) && can_all(
        after_step(view, steps[0]),
        steps.skip(1),
    )
}

/// The messages of a transfer as far as it came: its start, what the sender gave, and its
/// end once all files are done with.
pub open spec fn given(view: SendView, start: MessageView, steps: Seq<SendStep>) -> Seq<
    MessageView,
> {
    let begun = seq![start] + run_messages(view, steps);
    if completes(view, steps) {
        begun.push(MessageView::TransferEnd { id: view.id })
    } else {
        begun
    }
}

/// How a transfer ended of whose messages these many went out: it was sent if it came to
/// its end and all went out.
pub open spec fn outcome_of(
    view: SendView,
    start: MessageView,
    steps: Seq<SendStep>,
    count: nat,
) -> SendOutcome {
    if completes(view, steps) && count == given(view, start, steps).len() {
        SendOutcome::Sent
    } else {
        SendOutcome::Failed
    }
}

/// All that is sent of a transfer of whose messages these many went out.
pub open spec fn sent_of(
    view: SendView,
    start: MessageView,
    steps: Seq<SendStep>,
    count: nat,
) -> Seq<MessageView> {
    let out = given(view, start, steps).take(count as int);
    match last_word(view.id, outcome_of(view, start, steps, count)) {
        Some(word) => out.push(word),
        None => out,
    }
}

proof fn lemma_run_is_open(view: SendView, steps: Seq<SendStep>)
    ensures
        forall|i: int|
            0 <= i < run_messages(view, steps).len() ==> {
                let message = #[trigger] run_messages(view, steps)[i];
                message is TransferChunk || message is TransferFileEnd
            },
    decreases steps.len(),
{
    if steps.len() > 0 {
        let next = after_step(view, steps[0]);
        let later = run_messages(next, steps.skip(1));
        lemma_run_is_open(next, steps.skip(1));
        let all = run_messages(view, steps);
        assert forall|i: int| 0 <= i < all.len() implies (#[trigger] all[i]) is TransferChunk
            || all[i] is TransferFileEnd by {
            if steps[0] is Next {
                assert(all[i] == later[i]);
            } else if i > 0 {
                assert(all[i] == later[i - 1]);
            }
        }
    }
}

/// A transfer is closed once: however far a sender came and however many of its messages
/// went out, the last that is sent is either the end of the transfer, where all of it
/// went out, or the message that takes it back, where not; and none before it is one of
/// the two.
pub proof fn law_transfer_is_closed_once(
    view: SendView,
    start: MessageView,
    steps: Seq<SendStep>,
    count: nat,
)
    requires
        can_all(view, steps),
        start is TransferStart,
        count <= given(view, start, steps).len(),
    ensures
        ({
            let sent = sent_of(view, start, steps, count);
            let outcome = outcome_of(view, start, steps, count);
            &&& sent.len() > 0
            &&& forall|i: int|
                0 <= i < sent.len() - 1 ==> !((#[trigger] sent[i]) is TransferEnd || sent[i]
                    is TransferAbort)
            &&& sent.last() == match outcome {
                SendOutcome::Sent => MessageView::TransferEnd { id: view.id },
                SendOutcome::Failed => MessageView::TransferAbort { id: view.id },
            }
        }),
{
    lemma_run_is_open(view, steps);
    let run = run_messages(view, steps);
    let all = given(view, start, steps);
    let sent = sent_of(view, start, steps, count);
    assert forall|i: int| 0 <= i < sent.len() - 1 implies !((#[trigger] sent[i]) is TransferEnd
        || sent[i] is TransferAbort) by {
        assert(sent[i] == all[i]);
        if i > 0 {
            assert(all[i] == run[i - 1]);
        }
    }
}

} // verus!
