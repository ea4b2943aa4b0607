//! What one device sends, the session of another takes.

use vstd::prelude::*;

use crate::capture::manifest_of;
use crate::digest::sha256;
use crate::fingerprint::payload_hash;
use crate::image::{
    chunk_end, decoded, image_chunks, image_messages, law_captured_image_is_accepted,
    law_image_transfer_round_trip, png_frame, png_header, received_all, ImageError,
    MAX_IMAGE_TRANSFER_BYTES,
};
use crate::manifest::{file_numbers, manifest_fault};
use crate::receive::{started, TransferView};
use crate::seen::{law_seen_ids, seen_after};
use crate::send::{
    accepted_all, file_messages, last_word, law_file_transfer_round_trip, next_file, readable,
    transfer_messages, whole, SendOutcome, SendView,
};
use crate::sessions::{
    announced, is_active, lemma_place, lemma_place_is, lemma_without, place, without, SessionView,
};
use crate::state::{law_nothing_is_sent_back, missing, ActionView, StateView};
use crate::wire::{
    total_size, MessageView, PayloadView, MAX_ACTIVE_IMAGES, MAX_ACTIVE_IMAGE_BYTES,
    MAX_ACTIVE_TRANSFERS, MAX_ACTIVE_TRANSFER_BYTES,
};

verus! {

/// The session after messages of a device, each at its time.
pub open spec fn after_all(
    state: StateView,
    peer: u64,
    messages: Seq<MessageView>,
    times: Seq<u64>,
) -> StateView
    decreases messages.len(),
{
    if messages.len() == 0 {
        state
    } else {
        after_all(
            state.on_message(peer, messages[0], times[0]).state,
            peer,
            messages.skip(1),
            times.skip(1),
        )
    }
}

/// Whether a message is a chunk or the end of a file, of a transfer with this
/// identifier.
spec fn carries(message: MessageView, id: Seq<char>) -> bool {
    match message {
        MessageView::TransferChunk { id: of, .. } => of == id,
        MessageView::TransferFileEnd { id: of, .. } => of == id,
        _ => false,
    }
}

spec fn all_carry(messages: Seq<MessageView>, id: Seq<char>) -> bool {
    forall|i: int| 0 <= i < messages.len() ==> carries(#[trigger] messages[i], id)
}

proof fn lemma_file_messages_carry(view: SendView, pieces: Seq<Seq<u8>>)
    ensures
        all_carry(file_messages(view, pieces), view.id),
    decreases pieces.len(),
{
    if pieces.len() > 0 {
        let later = file_messages(view.with_chunk(pieces[0]), pieces.skip(1));
        lemma_file_messages_carry(view.with_chunk(pieces[0]), pieces.skip(1));
        let messages = file_messages(view, pieces);
        assert forall|i: int| 0 <= i < messages.len() implies carries(
            #[trigger] messages[i],
            view.id,
        ) by {
            if i > 0 {
                assert(messages[i] == later[i - 1]);
            }
        }
    }
}

proof fn lemma_transfer_messages_carry(view: SendView, contents: Seq<Seq<Seq<u8>>>)
    ensures
        all_carry(transfer_messages(view, contents), view.id),
    decreases contents.len(),
{
    if contents.len() > 0 {
        let at = SendView { position: next_file(view.entries, view.position), ..view };
        let first = file_messages(at, contents[0]);
        let later = transfer_messages(at.with_end(), contents.skip(1));
        lemma_file_messages_carry(at, contents[0]);
        lemma_transfer_messages_carry(at.with_end(), contents.skip(1));
        let messages = transfer_messages(view, contents);
        assert forall|i: int| 0 <= i < messages.len() implies carries(
            #[trigger] messages[i],
            view.id,
        ) by {
            if i < first.len() {
                assert(messages[i] == first[i]);
            } else {
                assert(messages[i] == later[i - first.len()]);
            }
        }
    }
}

/// Another stage of a transfer stands where the transfer stood.
proof fn lemma_place_stays<V>(
    sessions: Seq<SessionView<V>>,
    peer: u64,
    id: Seq<char>,
    session: SessionView<V>,
)
    requires
        is_active(sessions, peer, id),
        session.peer == peer,
        session.id == id,
    ensures
        place(sessions.update(place(sessions, peer, id), session), peer, id) == place(
            sessions,
            peer,
            id,
        ),
{
    lemma_place(sessions, peer, id);
    let at = place(sessions, peer, id);
    let after = sessions.update(at, session);
    assert forall|i: int| 0 <= i < at implies !((#[trigger] after[i]).peer == peer && after[i].id
        == id) by {
        assert(after[i] == sessions[i]);
    }
    lemma_place_is(after, peer, id, at);
}

/// A session takes the messages of a transfer that the transfer accepts.
proof fn lemma_files_taken(
    state: StateView,
    peer: u64,
    id: Seq<char>,
    messages: Seq<MessageView>,
    times: Seq<u64>,
)
    requires
        state.open_id(id),
        is_active(state.transfers, peer, id),
        all_carry(messages, id),
        accepted_all(state.transfers[place(state.transfers, peer, id)].item, messages) is Some,
    ensures
        ({
            let at = place(state.transfers, peer, id);
            let item = accepted_all(state.transfers[at].item, messages)->0;
            let after = after_all(state, peer, messages, times);
            after == StateView {
                transfers: state.transfers.update(
                    at,
                    SessionView { last: after.transfers[at].last, item, ..state.transfers[at] },
                ),
                ..state
            }
        }),
    decreases messages.len(),
{
    let at = place(state.transfers, peer, id);
    let session = state.transfers[at];
    lemma_place(state.transfers, peer, id);
    let after = after_all(state, peer, messages, times);
    if messages.len() == 0 {
        assert(state.transfers.update(at, session) == state.transfers);
    } else {
        assert(carries(messages[0], id));
        let item = match messages[0] {
            MessageView::TransferChunk { file_index, bytes, .. } => session.item.with_chunk(
                file_index,
                bytes,
            ),
            MessageView::TransferFileEnd { file_index, .. } => session.item.with_end(file_index),
            _ => session.item,
        };
        let new = SessionView { last: times[0], item, ..session };
        let next = state.on_message(peer, messages[0], times[0]).state;
        assert(next == StateView { transfers: state.transfers.update(at, new), ..state });
        lemma_place_stays(state.transfers, peer, id, new);
        let later = messages.skip(1);
        assert forall|i: int| 0 <= i < later.len() implies carries(#[trigger] later[i], id) by {
            assert(later[i] == messages[i + 1]);
        }
        lemma_files_taken(next, peer, id, later, times.skip(1));
        let end = SessionView {
            last: after.transfers[at].last,
            item: accepted_all(session.item, messages)->0,
            ..session
        };
        assert(state.transfers.update(at, new).update(at, end) == state.transfers.update(at, end));
    }
}

/// Files that one device sends come whole to the session of another: where it has
/// room for the transfer it begins it, takes every chunk and every end of a file,
/// and at the end of the transfer finishes it with the bytes that were read. Then
/// the transfer is no longer under way, and nothing else has changed.
pub proof fn law_files_are_delivered(
    state: StateView,
    peer: u64,
    sender: SendView,
    contents: Seq<Seq<Seq<u8>>>,
    times: Seq<u64>,
    now: u64,
)
    requires
        state.valid(),
        state.open_id(sender.id),
        state.without_transfer(peer, sender.id).transfers.len() < MAX_ACTIVE_TRANSFERS,
        announced(state.without_transfer(peer, sender.id).transfers) + total_size(
            manifest_of(sender.entries),
        ) <= MAX_ACTIVE_TRANSFER_BYTES,
        sender.position == 0,
        sender.file_index == 0,
        sender.sent.len() == 0,
        manifest_fault(manifest_of(sender.entries)) is None,
        contents.len() == file_numbers(manifest_of(sender.entries)).len(),
        forall|k: int|
            0 <= k < contents.len() ==> readable(#[trigger] contents[k]) && whole(contents[k]).len()
                == manifest_of(sender.entries)[file_numbers(manifest_of(sender.entries))[k]].size,
    ensures
        ({
            let id = sender.id;
            let entries = manifest_of(sender.entries);
            let begun = state.on_message(peer, MessageView::TransferStart { id, entries }, now);
            let filled = after_all(
                begun.state,
                peer,
                transfer_messages(sender, contents),
                times,
            );
            let ended = filled.on_message(peer, MessageView::TransferEnd { id }, now);
            &&& begun.action == ActionView::Begin
            &&& ended.state == state.without_transfer(peer, id)
            &&& ended.removed.len() == 0
            &&& ended.action matches ActionView::Finish { id: of, transfer } && {
                &&& of == id
                &&& transfer.directory == state.directory_name(peer, id)
                &&& transfer.entries == entries
                &&& transfer.complete()
                &&& forall|k: int|
                    0 <= k < contents.len() ==> (#[trigger] transfer.files[k]).received == whole(
                        contents[k],
                    )
            }
        }),
{
    let id = sender.id;
    let entries = manifest_of(sender.entries);
    let rest = state.without_transfer(peer, id);
    let begun = state.on_message(peer, MessageView::TransferStart { id, entries }, now);
    let messages = transfer_messages(sender, contents);
    let item = started(state.directory_name(peer, id), entries);
    let at = rest.transfers.len() as int;
    lemma_without(state.transfers, peer, id);
    assert(begun.state.transfers[at].item == item);
    assert(begun.state.transfers.take(at) == rest.transfers);
    lemma_place(rest.transfers, peer, id);
    lemma_place_is(begun.state.transfers, peer, id, at);
    law_file_transfer_round_trip(sender, state.directory_name(peer, id), contents);
    lemma_transfer_messages_carry(sender, contents);
    lemma_files_taken(begun.state, peer, id, messages, times);
    let filled = after_all(begun.state, peer, messages, times);
    let session = filled.transfers[at];
    lemma_place_stays(begun.state.transfers, peer, id, session);
    assert(filled.transfers == begun.state.transfers.update(at, session));
    assert(filled.transfers.remove(at) == rest.transfers);
    lemma_accepted_keeps(item, messages);
}

/// Messages that a transfer accepts leave its directory and its manifest alone.
proof fn lemma_accepted_keeps(view: TransferView, messages: Seq<MessageView>)
    ensures
        accepted_all(view, messages) matches Some(after) ==> after.directory == view.directory
            && after.entries == view.entries,
    decreases messages.len(),
{
    if messages.len() > 0 {
        match messages[0] {
            MessageView::TransferChunk { file_index, bytes, .. } => {
                lemma_accepted_keeps(view.with_chunk(file_index, bytes), messages.skip(1));
            },
            MessageView::TransferFileEnd { file_index, .. } => {
                lemma_accepted_keeps(view.with_end(file_index), messages.skip(1));
            },
            _ => {},
        }
    }
}

/// A session takes the chunks of an image that the image accepts.
proof fn lemma_image_taken(
    state: StateView,
    peer: u64,
    id: Seq<char>,
    bytes: Seq<u8>,
    offset: nat,
    times: Seq<u64>,
)
    requires
        state.open_id(id),
        is_active(state.images, peer, id),
        received_all(
            state.images[place(state.images, peer, id)].item,
            image_chunks(id, bytes, offset),
        ) is Some,
    ensures
        ({
            let at = place(state.images, peer, id);
            let chunks = image_chunks(id, bytes, offset);
            let item = received_all(state.images[at].item, chunks)->0;
            let after = after_all(state, peer, chunks, times);
            after == StateView {
                images: state.images.update(
                    at,
                    SessionView { last: after.images[at].last, item, ..state.images[at] },
                ),
                ..state
            }
        }),
    decreases bytes.len() - offset,
{
    let at = place(state.images, peer, id);
    let session = state.images[at];
    let chunks = image_chunks(id, bytes, offset);
    lemma_place(state.images, peer, id);
    let after = after_all(state, peer, chunks, times);
    if offset >= bytes.len() {
        assert(state.images.update(at, session) == state.images);
    } else {
        let end = chunk_end(bytes.len(), offset);
        let chunk = bytes.subrange(offset as int, end as int);
        assert(chunks[0] == MessageView::ImageChunk { id, offset: offset as u64, bytes: chunk });
        assert(chunks.skip(1) == image_chunks(id, bytes, end));
        let new = SessionView { last: times[0], item: session.item.with_chunk(chunk), ..session };
        let next = state.on_message(peer, chunks[0], times[0]).state;
        assert(next == StateView { images: state.images.update(at, new), ..state });
        lemma_place_stays(state.images, peer, id, new);
        lemma_image_taken(next, peer, id, bytes, end, times.skip(1));
        let last = SessionView {
            last: after.images[at].last,
            item: received_all(session.item, chunks)->0,
            ..session
        };
        assert(state.images.update(at, new).update(at, last) == state.images.update(at, last));
    }
}

/// An image that one device sends comes whole to the session of another: where it
/// has room for the image it begins it, takes every chunk, and at the end puts on
/// the clipboard what was sent, under the fingerprint that was sent. The image has
/// to be one that decodes to the size that is sent with it, as every captured image
/// does.
pub proof fn law_images_are_delivered(
    state: StateView,
    peer: u64,
    id: Seq<char>,
    fingerprint: u64,
    width: u32,
    height: u32,
    bytes: Seq<u8>,
    rgba: Seq<u8>,
    times: Seq<u64>,
    now: u64,
)
    requires
        state.valid(),
        state.open_id(id),
        state.images.len() < MAX_ACTIVE_IMAGES,
        announced(state.images) + bytes.len() <= MAX_ACTIVE_IMAGE_BYTES,
        width > 0,
        height > 0,
        0 < bytes.len() <= MAX_IMAGE_TRANSFER_BYTES,
        decoded(png_header(bytes), png_frame(bytes)) == Ok::<(u32, u32, Seq<u8>), ImageError>(
            (width, height, rgba),
        ),
    ensures
        ({
            let messages = image_messages(id, fingerprint, width, height, bytes);
            let begun = state.on_message(peer, messages[0], now);
            let filled = after_all(
                begun.state,
                peer,
                messages.subrange(1, messages.len() - 1),
                times,
            );
            let ended = filled.on_message(peer, messages.last(), now);
            &&& begun.action == ActionView::BeginImage
            &&& ended.action == ActionView::Apply {
                id,
                fingerprint,
                payload: PayloadView::Image { width, height, bytes },
            }
            &&& ended.state == StateView { images: without(state.images, peer, id), ..state }
        }),
{
    let messages = image_messages(id, fingerprint, width, height, bytes);
    let begun = state.on_message(peer, messages[0], now);
    let rest = without(state.images, peer, id);
    let at = rest.len() as int;
    law_image_transfer_round_trip(id, fingerprint, width, height, bytes);
    lemma_without(state.images, peer, id);
    assert(begun.state.images.take(at) == rest);
    lemma_place(rest, peer, id);
    lemma_place_is(begun.state.images, peer, id, at);
    assert(messages.subrange(1, messages.len() - 1) == image_chunks(id, bytes, 0));
    lemma_image_taken(begun.state, peer, id, bytes, 0, times);
    let filled = after_all(begun.state, peer, image_chunks(id, bytes, 0), times);
    let session = filled.images[at];
    lemma_place_stays(begun.state.images, peer, id, session);
    assert(filled.images == begun.state.images.update(at, session));
    assert(filled.images.remove(at) == rest);
    law_captured_image_is_accepted(session.item, rgba);
}

/// A clipboard that comes in one message is put in place as it was sent, once: when it
/// is there, the same message does nothing more, and the device that sent it is not
/// sent it back.
pub proof fn law_clipboards_are_delivered(
    state: StateView,
    peer: u64,
    id: Seq<char>,
    payload: PayloadView,
    peers: Seq<u64>,
    now: u64,
)
    requires
        state.valid(),
        state.open_id(id),
    ensures
        ({
            let message = MessageView::Clipboard { id, payload };
            let fingerprint = payload_hash(payload);
            let applied = StateView {
                completed: seen_after(state.completed, id),
                ..state.remote_applied(fingerprint, peer)
            };
            &&& state.on_message(peer, message, now) == state.with(
                ActionView::Apply { id, fingerprint, payload },
            )
            &&& applied.on_message(peer, message, now) == applied.with(ActionView::Ignore)
            &&& !missing(peers, applied.have(fingerprint)).contains(peer)
        }),
{
    law_seen_ids(state.completed, id);
    law_nothing_is_sent_back(state, payload_hash(payload), peer, peers);
}

/// All that is sent of an image of whose messages these many went out.
pub open spec fn image_sent(
    id: Seq<char>,
    fingerprint: u64,
    width: u32,
    height: u32,
    bytes: Seq<u8>,
    count: nat,
) -> Seq<MessageView> {
    let messages = image_messages(id, fingerprint, width, height, bytes);
    let outcome = if count == messages.len() {
        SendOutcome::Sent
    } else {
        SendOutcome::Failed
    };
    match last_word(id, outcome) {
        Some(word) => messages.take(count as int).push(word),
        None => messages.take(count as int),
    }
}

proof fn lemma_chunks_are_open(id: Seq<char>, bytes: Seq<u8>, offset: nat)
    ensures
        forall|i: int|
            0 <= i < image_chunks(id, bytes, offset).len() ==> (#[trigger] image_chunks(
                id,
                bytes,
                offset,
            )[i]) is ImageChunk,
    decreases bytes.len() - offset,
{
    if offset < bytes.len() {
        let end = chunk_end(bytes.len(), offset);
        let all = image_chunks(id, bytes, offset);
        let later = image_chunks(id, bytes, end);
        lemma_chunks_are_open(id, bytes, end);
        assert forall|i: int| 0 <= i < all.len() implies (#[trigger] all[i]) is ImageChunk by {
            if i > 0 {
                assert(all[i] == later[i - 1]);
            }
        }
    }
}

/// An image is closed once: however many of its messages went out, the last that is sent
/// is either its end, where all went out, or the message that takes it back, where not;
/// and none before it is one of the two.
pub proof fn law_image_is_closed_once(
    id: Seq<char>,
    fingerprint: u64,
    width: u32,
    height: u32,
    bytes: Seq<u8>,
    count: nat,
)
    requires
        count <= image_messages(id, fingerprint, width, height, bytes).len(),
    ensures
        ({
            let messages = image_messages(id, fingerprint, width, height, bytes);
            let sent = image_sent(id, fingerprint, width, height, bytes, count);
            &&& sent.len() > 0
            &&& forall|i: int|
                0 <= i < sent.len() - 1 ==> !((#[trigger] sent[i]) is ImageEnd || sent[i]
                    is TransferAbort)
            &&& sent.last() == if count == messages.len() {
                MessageView::ImageEnd { id, sha256: sha256(bytes) }
            } else {
                MessageView::TransferAbort { id }
            }
        }),
{
    let messages = image_messages(id, fingerprint, width, height, bytes);
    let chunks = image_chunks(id, bytes, 0);
    let sent = image_sent(id, fingerprint, width, height, bytes, count);
    lemma_chunks_are_open(id, bytes, 0);
    assert(messages.len() == chunks.len() + 2);
    assert forall|i: int| 0 <= i < sent.len() - 1 implies !((#[trigger] sent[i]) is ImageEnd
        || sent[i] is TransferAbort) by {
        assert(sent[i] == messages[i]);
        if i > 0 {
            assert(messages[i] == chunks[i - 1]);
        }
    }
}

/// What is taken back is no longer under way, be it files or an image.
pub proof fn law_abort_ends_the_transfer(state: StateView, peer: u64, id: Seq<char>, now: u64)
    requires
        state.valid(),
    ensures
        ({
            let after = state.on_message(peer, MessageView::TransferAbort { id }, now).state;
            !is_active(after.transfers, peer, id) && !is_active(after.images, peer, id)
        }),
{
    lemma_without(state.transfers, peer, id);
    lemma_without(state.images, peer, id);
}

} // verus!
