//! What is sent between devices that are connected directly.

use vstd::prelude::*;

use crate::digest::sha256;
use crate::direct::capture::LocalView;
use crate::direct::send::{last_word, next_file, SendView};
use crate::direct::wire::MessageView;
use crate::send::SendOutcome;
use crate::wire::TransferEntryKind;

verus! {

/// The next file is the first one that is not behind, and directories are passed over; the
/// rest of the transfer stays as it is.
pub proof fn law_next_file_is_sent(view: SendView, at: nat)
    requires
        view.position <= at <= view.entries.len(),
        forall|i: int|
            view.position <= i < at ==> (#[trigger] view.entries[i]).entry.kind
                == TransferEntryKind::Directory,
        at < view.entries.len() ==> view.entries[at as int].entry.kind == TransferEntryKind::File,
    ensures
        view.moved().position == at,
        view.moved().entries == view.entries,
        view.moved().id == view.id,
        view.moved().file_index == view.file_index,
        view.moved().sent == view.sent,
        view.moved().at_file() <==> at < view.entries.len(),
{
    lemma_next_file(view.entries, view.position, at);
}

proof fn lemma_next_file(entries: Seq<LocalView>, position: nat, at: nat)
    requires
        position <= at <= entries.len(),
        forall|i: int|
            position <= i < at ==> (#[trigger] entries[i]).entry.kind
                == TransferEntryKind::Directory,
        at < entries.len() ==> entries[at as int].entry.kind == TransferEntryKind::File,
    ensures
        next_file(entries, position) == at,
    decreases at - position,
{
    if position < at {
        assert(entries[position as int].entry.kind == TransferEntryKind::Directory);
        lemma_next_file(entries, position + 1, at);
    }
}

/// A piece of a file is sent with the number of the file and with where it belongs, which
/// is behind what was sent of the file.
pub proof fn law_pieces_are_sent(view: SendView, bytes: Seq<u8>)
    requires
        view.file_index <= u32::MAX,
        view.sent.len() <= u64::MAX,
    ensures
        view.chunk_message(bytes) matches MessageView::TransferChunk {
            id,
            file_index,
            offset,
            bytes: sent,
        } && id == view.id && file_index == view.file_index && offset == view.sent.len() && sent
            == bytes,
        view.with_chunk(bytes).sent == view.sent + bytes,
        view.with_chunk(bytes).position == view.position,
        view.with_chunk(bytes).file_index == view.file_index,
        view.with_chunk(bytes).entries == view.entries,
        view.with_chunk(bytes).id == view.id,
{
}

/// The end of a file is sent with the number of the file and the digest of all that was sent
/// of it; then the next file is sent, from its beginning.
pub proof fn law_ends_are_sent(view: SendView)
    requires
        view.file_index <= u32::MAX,
    ensures
        view.end_message() matches MessageView::TransferFileEnd { id, file_index, sha256: digest }
            && id == view.id && file_index == view.file_index && digest == sha256(view.sent),
        view.with_end().position == view.position + 1,
        view.with_end().file_index == view.file_index + 1,
        view.with_end().sent.len() == 0,
        view.with_end().entries == view.entries,
        view.with_end().id == view.id,
{
}

/// A transfer that failed is taken back; one that was sent is not.
pub proof fn law_failed_transfers_are_taken_back(id: Seq<char>)
    ensures
        last_word(id, SendOutcome::Sent) is None,
        last_word(id, SendOutcome::Failed) == Some(MessageView::TransferAbort { id }),
{
}

} // verus!
