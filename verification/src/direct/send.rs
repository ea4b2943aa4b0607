//! Sending files in the direct mode.

use sha2::Sha256;
use std::sync::Arc;
use vstd::prelude::*;
use vstd::string::StringExecFns;

use super::capture::{local_views, manifest_copy, manifest_of, CapturedFiles, LocalView};
use super::wire::{
    checked_total, file_numbers, lemma_file_numbers, total_size, MessageView, WireMessage,
};
use crate::digest::{absorbed, sha256, sha256_finish, sha256_new, sha256_update};
use crate::send::SendOutcome;
use crate::wire::{TransferEntryKind, CHUNK_SIZE, MAX_TRANSFER_BYTES};

verus! {

/// Why files are not sent, or not further.
#[derive(Debug, Clone, Copy, PartialEq, Eq, Structural)]
pub enum SendError {
    SizeOverflow,
    TooLarge,
    /// The file grew while it was sent.
    Grew,
    /// The file changed while it was sent.
    Changed,
}

/// How far files have been sent.
pub ghost struct SendView {
    pub id: Seq<char>,
    pub entries: Seq<LocalView>,
    /// How many entries are done with.
    pub position: nat,
    /// How many files are done with.
    pub file_index: nat,
    /// What was read and sent of the file at the position.
    pub sent: Seq<u8>,
}

/// The first file at a position or behind it; the end where there is none.
pub open spec fn next_file(entries: Seq<LocalView>, position: nat) -> nat
    decreases entries.len() - position,
{
    if position >= entries.len() {
        entries.len()
    } else if entries[position as int].entry.kind == TransferEntryKind::File {
        position
    } else {
        next_file(entries, position + 1)
    }
}

impl SendView {
    /// The files done with are those among the entries done with, and no file was
    /// sent further than captured.
    pub open spec fn valid(self) -> bool {
        &&& self.position <= self.entries.len()
        &&& self.file_index == file_numbers(
            manifest_of(self.entries).take(self.position as int),
        ).len()
        &&& self.sent.len() > 0 ==> self.position < self.entries.len()
        &&& self.position < self.entries.len() ==> self.sent.len()
            <= self.entries[self.position as int].entry.size
    }

    /// The entry at the position.
    pub open spec fn local(self) -> LocalView {
        self.entries[self.position as int]
    }

    /// Whether a file is at the position.
    pub open spec fn at_file(self) -> bool {
        self.position < self.entries.len() && self.local().entry.kind == TransferEntryKind::File
    }

    /// At the next file, or at the end.
    pub open spec fn moved(self) -> SendView {
        SendView { position: next_file(self.entries, self.position), ..self }
    }

    /// The message that carries what was read next.
    pub open spec fn chunk_message(self, bytes: Seq<u8>) -> MessageView {
        MessageView::TransferChunk {
            id: self.id,
            file_index: self.file_index as u32,
            offset: self.sent.len() as u64,
            bytes,
        }
    }

    /// With what was read next sent too.
    pub open spec fn with_chunk(self, bytes: Seq<u8>) -> SendView {
        SendView { sent: self.sent + bytes, ..self }
    }

    /// The message that ends the file at the position.
    pub open spec fn end_message(self) -> MessageView {
        MessageView::TransferFileEnd {
            id: self.id,
            file_index: self.file_index as u32,
            sha256: sha256(self.sent),
        }
    }

    /// With the file at the position done with.
    pub open spec fn with_end(self) -> SendView {
        SendView {
            position: self.position + 1,
            file_index: self.file_index + 1,
            sent: seq![],
            ..self
        }
    }
}

/// Files that are going out.
pub struct FileSender {
    id: String,
    files: Arc<CapturedFiles>,
    position: usize,
    file_index: u32,
    offset: u64,
    hasher: Sha256,
}

impl View for FileSender {
    type V = SendView;

    closed spec fn view(&self) -> SendView {
        SendView {
            id: self.id@,
            entries: local_views(self.files.entries@),
            position: self.position as nat,
            file_index: self.file_index as nat,
            sent: absorbed(self.hasher),
        }
    }
}

impl FileSender {
    /// The parts fit each other.
    pub closed spec fn wf(self) -> bool {
        &&& self@.valid()
        &&& self.files.wf()
        &&& self.offset == absorbed(self.hasher).len()
        &&& total_size(self.files.manifest()) <= MAX_TRANSFER_BYTES
    }

    /// Begins to send captured files; the first message is their manifest. Files
    /// that are too large together are refused.
    pub fn send_file_transfer(id: &str, files: Arc<CapturedFiles>) -> (r: Result<
        (FileSender, WireMessage),
        SendError,
    >)
        requires
            files.wf(),
        ensures
            r is Ok <==> total_size(files.manifest()) <= MAX_TRANSFER_BYTES,
            r matches Err(error) ==> error == if total_size(files.manifest()) > u64::MAX {
                SendError::SizeOverflow
            } else {
                SendError::TooLarge
            },
            r matches Ok((sender, message)) ==> {
                &&& sender.wf()
                &&& sender@ == (SendView {
                    id: id@,
                    entries: local_views(files.entries@),
                    position: 0,
                    file_index: 0,
                    sent: seq![],
                })
                &&& message@ == (MessageView::TransferStart {
                    id: id@,
                    fingerprint: files.identity,
                    entries: files.manifest(),
                })
            },
    {
        let entries = manifest_copy(&files.entries);
        let total: u64 = match checked_total(&entries) {
            Some(total) => total,
            None => {
                return Err(SendError::SizeOverflow);
            },
        };
        if total > MAX_TRANSFER_BYTES {
            return Err(SendError::TooLarge);
        }
        let fingerprint: u64 = files.identity;
        let sender = FileSender {
            id: String::from_str(id),
            files,
            position: 0,
            file_index: 0,
            offset: 0,
            hasher: sha256_new(),
        };
        let message = WireMessage::TransferStart { id: String::from_str(id), fingerprint, entries };
        proof {
            assert(file_numbers(manifest_of(sender@.entries).take(0)).len() == 0);
        }
        Ok((sender, message))
    }

    /// Goes on to the next file. The answer is the number of the path that it
    /// comes from; nothing once all files are done with.
    pub fn next_source(&mut self) -> (r: Option<u64>)
        requires
            old(self).wf(),
            old(self)@.sent.len() == 0,
        ensures
            final(self).wf(),
            final(self)@ == old(self)@.moved(),
            r is None <==> final(self)@.position == final(self)@.entries.len(),
            r matches Some(source) ==> final(self)@.at_file() && final(self)@.local().source
                == Some(source),
    {
        let ghost before = self@;
        let ghost manifest = manifest_of(before.entries);
        while self.position < self.files.entries.len()
            invariant
                before == old(self)@,
                self.wf(),
                self@.sent.len() == 0,
                self@.id == before.id,
                self@.entries == before.entries,
                self@.sent == before.sent,
                self@.file_index == before.file_index,
                manifest == manifest_of(before.entries),
                next_file(before.entries, self@.position) == next_file(
                    before.entries,
                    before.position,
                ),
            decreases self.files.entries@.len() - self.position,
        {
            let position = self.position;
            proof {
                assert(self@.entries[position as int] == self.files.entries@[position as int]@);
                assert(manifest[position as int] == self.files.entries@[position as int].entry@);
                assert(manifest.take(position as int + 1).drop_last() == manifest.take(
                    position as int,
                ));
            }
            if self.files.entries[position].entry.kind == TransferEntryKind::File {
                return self.files.entries[position].source;
            }
            self.position = position + 1;
        }
        None
    }

    /// Takes what was read next of the file, one chunk at most, and gives the message
    /// that carries it. A file that is longer than captured is not sent further.
    pub fn send_chunk(&mut self, bytes: Vec<u8>) -> (r: Result<WireMessage, SendError>)
        requires
            old(self).wf(),
            old(self)@.at_file(),
            0 < bytes@.len() <= CHUNK_SIZE,
        ensures
            final(self).wf(),
            r is Ok <==> old(self)@.sent.len() + bytes@.len() <= old(self)@.local().entry.size,
            r matches Err(error) ==> error == SendError::Grew && *final(self) == *old(self),
            r matches Ok(message) ==> message@ == old(self)@.chunk_message(bytes@) && final(self)@
                == old(self)@.with_chunk(bytes@),
    {
        proof {
            assert(self@.local() == self.files.entries@[self.position as int]@);
        }
        let length: u64 = bytes.len() as u64;
        let size: u64 = self.files.entries[self.position].entry.size;
        if length > size - self.offset {
            return Err(SendError::Grew);
        }
        let offset: u64 = self.offset;
        sha256_update(&mut self.hasher, bytes.as_slice());
        self.offset = offset + length;
        Ok(
            WireMessage::TransferChunk {
                id: self.id.clone(),
                file_index: self.file_index,
                offset,
                bytes,
            },
        )
    }

    /// Ends the file, of which nothing more can be read, and gives the message that
    /// says so. All of it was sent.
    pub fn end_file(&mut self) -> (r: Result<WireMessage, SendError>)
        requires
            old(self).wf(),
            old(self)@.at_file(),
        ensures
            final(self).wf(),
            r is Ok <==> old(self)@.sent.len() == old(self)@.local().entry.size,
            r matches Err(error) ==> error == SendError::Changed && *final(self) == *old(self),
            r matches Ok(message) ==> message@ == old(self)@.end_message() && final(self)@ == old(
                self)@.with_end(),
    {
        let ghost before = self@;
        proof {
            assert(self@.local() == self.files.entries@[self.position as int]@);
            let manifest = manifest_of(before.entries);
            let position = before.position as int;
            assert(manifest.take(position + 1).drop_last() == manifest.take(position));
            lemma_file_numbers(manifest.take(position + 1));
        }
        if self.offset != self.files.entries[self.position].entry.size {
            return Err(SendError::Changed);
        }
        let digest = sha256_finish(&self.hasher);
        let message = WireMessage::TransferFileEnd {
            id: self.id.clone(),
            file_index: self.file_index,
            sha256: digest,
        };
        self.position = self.position + 1;
        self.file_index = self.file_index + 1;
        self.offset = 0;
        self.hasher = sha256_new();
        Ok(message)
    }

    /// The message that ends the transfer, once all files are done with.
    pub fn end_message(&self) -> (message: WireMessage)
        requires
            self@.position == self@.entries.len(),
        ensures
            message@ == (MessageView::TransferEnd { id: self@.id }),
    {
        WireMessage::TransferEnd { id: self.id.clone() }
    }
}

/// The message that takes a transfer back where it cannot go on, or could not
/// begin.
pub fn abort_message(id: &str) -> (message: WireMessage)
    ensures
        message@ == (MessageView::TransferAbort { id: id@ }),
{
    WireMessage::TransferAbort { id: String::from_str(id) }
}

/// What is sent after the messages of a transfer, if anything: where it failed, the
/// message that takes it back.
pub open spec fn last_word(id: Seq<char>, outcome: SendOutcome) -> Option<MessageView> {
    match outcome {
        SendOutcome::Sent => None,
        SendOutcome::Failed => Some(MessageView::TransferAbort { id }),
    }
}

/// Decides what is sent after the messages of a transfer: nothing where all went out, and
/// else the message that takes it back.
pub fn after_send(id: &str, outcome: SendOutcome) -> (message: Option<WireMessage>)
    ensures
        match last_word(id@, outcome) {
            Some(word) => message matches Some(sent) && sent@ == word,
            None => message is None,
        },
{
    match outcome {
        SendOutcome::Sent => None,
        SendOutcome::Failed => Some(abort_message(id)),
    }
}

} // verus!
