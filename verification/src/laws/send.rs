//! What is sent.

use vstd::prelude::*;

use crate::capture::{FileKind, FileMeta, LocalView};
use crate::digest::sha256;
use crate::image::{image_chunks, image_messages};
use crate::send::{last_word, next_file, unchanged, SendOutcome, SendView};
use crate::wire::{MessageView, TransferEntryKind};

verus! {

/// A file counts as unchanged if and only if it is still a file, of the same size, with the
/// same permissions and the same time.
pub proof fn law_unchanged_files(local: LocalView, meta: FileMeta)
    ensures
        unchanged(local, meta) <==> meta.kind == FileKind::File && meta.size == local.entry.size
            && meta.mode == local.entry.mode && meta.modified_nanos == local.modified,
{
}

/// The next file is the first one that is not behind, and directories are passed over; the
/// rest of the transfer stays as it is.
pub proof fn law_next_file_is_sent(view: SendView, at: nat)
    requires
        view.position <= at <= view.entries.len(),
        forall|i: int|
            view.position <= i < at ==> (#[trigger] view.entries[i]).entry.kind
                == TransferEntryKind::Directory,
        at < view.entries.len() ==> view.entries[at as int].entry.kind == TransferEntryKind::File,
    ensures
        view.moved().position == at,
        view.moved().entries == view.entries,
        view.moved().id == view.id,
        view.moved().file_index == view.file_index,
        view.moved().sent == view.sent,
        view.moved().at_file() <==> at < view.entries.len(),
{
    lemma_next_file(view.entries, view.position, at);
}

proof fn lemma_next_file(entries: Seq<LocalView>, position: nat, at: nat)
    requires
        position <= at <= entries.len(),
        forall|i: int|
            position <= i < at ==> (#[trigger] entries[i]).entry.kind
                == TransferEntryKind::Directory,
        at < entries.len() ==> entries[at as int].entry.kind == TransferEntryKind::File,
    ensures
        next_file(entries, position) == at,
    decreases at - position,
{
    if position < at {
        assert(entries[position as int].entry.kind == TransferEntryKind::Directory);
        lemma_next_file(entries, position + 1, at);
    }
}

/// A piece of a file is sent with the number of the file and with where it belongs, which
/// is behind what was sent of the file.
pub proof fn law_pieces_are_sent(view: SendView, bytes: Seq<u8>)
    requires
        view.file_index <= u32::MAX,
        view.sent.len() <= u64::MAX,
    ensures
        view.chunk_message(bytes) matches MessageView::TransferChunk {
            id,
            file_index,
            offset,
            bytes: sent,
        } && id == view.id && file_index == view.file_index && offset == view.sent.len() && sent
            == bytes,
        view.with_chunk(bytes).sent == view.sent + bytes,
        view.with_chunk(bytes).position == view.position,
        view.with_chunk(bytes).file_index == view.file_index,
        view.with_chunk(bytes).entries == view.entries,
        view.with_chunk(bytes).id == view.id,
{
}

/// The end of a file is sent with the number of the file and the digest of all that was sent
/// of it; then the next file is sent, from its beginning.
pub proof fn law_ends_are_sent(view: SendView)
    requires
        view.file_index <= u32::MAX,
    ensures
        view.end_message() matches MessageView::TransferFileEnd { id, file_index, sha256: digest }
            && id == view.id && file_index == view.file_index && digest == sha256(view.sent),
        view.with_end().position == view.position + 1,
        view.with_end().file_index == view.file_index + 1,
        view.with_end().sent.len() == 0,
        view.with_end().entries == view.entries,
        view.with_end().id == view.id,
{
}

/// A transfer that failed is taken back; one that was sent is not.
pub proof fn law_failed_transfers_are_taken_back(id: Seq<char>)
    ensures
        last_word(id, SendOutcome::Sent) is None,
        last_word(id, SendOutcome::Failed) == Some(MessageView::TransferAbort { id }),
{
}

/// An image is sent in pieces of a mebibyte, from the first byte to the last: each piece
/// begins where the one before ends, and all but the last are full.
pub proof fn law_image_is_sent_in_pieces(id: Seq<char>, bytes: Seq<u8>, offset: nat, k: int)
    requires
        offset <= bytes.len() <= u64::MAX,
        0 <= k,
        offset + k * 1_048_576 < bytes.len(),
    ensures
        image_chunks(id, bytes, bytes.len()).len() == 0,
        k < image_chunks(id, bytes, offset).len(),
        image_chunks(id, bytes, offset)[k] matches MessageView::ImageChunk {
            id: of,
            offset: from,
            bytes: piece,
        } && of == id && from == offset + k * 1_048_576 && piece == bytes.subrange(
            offset + k * 1_048_576,
            if offset + (k + 1) * 1_048_576 < bytes.len() {
                offset + (k + 1) * 1_048_576
            } else {
                bytes.len() as int
            },
        ),
        offset + (k + 1) * 1_048_576 >= bytes.len() ==> image_chunks(id, bytes, offset).len() == k
            + 1,
    decreases k,
{
    let chunks = image_chunks(id, bytes, offset);
    let next = crate::image::chunk_end(bytes.len(), offset);
    let rest = image_chunks(id, bytes, next);
    if k > 0 {
        assert(next == offset + 1_048_576);
        law_image_is_sent_in_pieces(id, bytes, next, k - 1);
        assert(chunks[k] == rest[k - 1]);
    } else if offset + 1_048_576 >= bytes.len() {
        assert(next == bytes.len());
        assert(rest.len() == 0);
    }
}

/// What is sent of an image is its start with all that it is, its pieces, and its end with
/// the digest of all of it.
pub proof fn law_image_is_sent_whole(
    id: Seq<char>,
    fingerprint: u64,
    width: u32,
    height: u32,
    bytes: Seq<u8>,
)
    requires
        bytes.len() <= u64::MAX,
    ensures
        ({
            let messages = image_messages(id, fingerprint, width, height, bytes);
            &&& messages.len() == image_chunks(id, bytes, 0).len() + 2
            &&& messages[0] matches MessageView::ImageStart {
                id: of,
                fingerprint: f,
                width: w,
                height: h,
                size,
            }
            &&& of == id && f == fingerprint && w == width && h == height && size == bytes.len()
            &&& messages.subrange(1, messages.len() - 1) == image_chunks(id, bytes, 0)
            &&& messages.last() == (MessageView::ImageEnd { id, sha256: sha256(bytes) })
        }),
{
    let messages = image_messages(id, fingerprint, width, height, bytes);
    assert(messages.subrange(1, messages.len() - 1) == image_chunks(id, bytes, 0));
}

} // verus!
