//! What a session of devices that are connected directly does.

use vstd::prelude::*;

use crate::digest::sha256;
use crate::direct::receive::{manifest_fault, TransferView};
use crate::direct::state::{ActionView, DirectState, Refusal};
use crate::direct::wire::{
    file_numbers, payload_hash, transfer_directory, EntryView, MessageView,
};
use crate::laws::session::{
    has_at, law_other_sessions_are_not_found, law_sessions_are_found, none_has,
};
use crate::progress::{chunk_fault, end_fault, FileView, TransferError};
use crate::seen::seen_after;
use crate::sessions::SessionView;
use crate::text::decimal;
use crate::wire::PayloadView;

verus! {

/// A clipboard is sent if and only if it is not the one that was sent or came in last,
/// whatever its fingerprint.
pub proof fn law_new_clipboard_is_sent(state: DirectState, fingerprint: u64, other: u64)
    ensures
        state.last_fingerprint is None ==> state.wants(fingerprint),
        state.last_fingerprint == Some(other) ==> (state.wants(fingerprint) <==> fingerprint
            != other),
{
}

/// An attempt to send takes the next number, and is remembered by its fingerprint; nothing
/// else changes but that capturing is no longer known to fail.
pub proof fn law_attempts_are_numbered(state: DirectState, fingerprint: u64)
    requires
        state.sequence < u64::MAX,
    ensures
        ({
            let after = state.attempted(fingerprint);
            &&& after.sequence == state.sequence + 1
            &&& after.attempted_fingerprint == Some(fingerprint)
            &&& after.capture_error is None
            &&& after.origin == state.origin
            &&& after.last_fingerprint == state.last_fingerprint
            &&& after.send_error == state.send_error
            &&& after.seen == state.seen
            &&& after.transfers == state.transfers
        }),
        state.next_id() == state.origin + seq!['-'] + decimal((state.sequence + 1) as nat),
{
    assert(state.next_id() == state.origin + seq!['-'] + decimal((state.sequence + 1) as nat));
}

/// A clipboard that was sent is not sent again; one that could not be is, and its failure is
/// remembered; one that came in is not sent back.
pub proof fn law_sent_clipboard_is_not_sent_again(
    state: DirectState,
    fingerprint: u64,
    message: Seq<char>,
)
    ensures
        ({
            let sent = state.settled(fingerprint);
            &&& !sent.wants(fingerprint)
            &&& sent.last_fingerprint == Some(fingerprint)
            &&& sent.attempted_fingerprint is None
            &&& sent.send_error is None
            &&& sent.origin == state.origin && sent.sequence == state.sequence
            &&& sent.capture_error == state.capture_error && sent.seen == state.seen
            &&& sent.transfers == state.transfers
        }),
        ({
            let failed = state.send_failed(message);
            &&& failed.wants(fingerprint) == state.wants(fingerprint)
            &&& failed.send_error == Some(message)
            &&& failed.last_fingerprint == state.last_fingerprint
            &&& failed.attempted_fingerprint == state.attempted_fingerprint
            &&& failed.origin == state.origin && failed.sequence == state.sequence
            &&& failed.capture_error == state.capture_error && failed.seen == state.seen
            &&& failed.transfers == state.transfers
        }),
        ({
            let came = state.received(fingerprint);
            &&& !came.wants(fingerprint)
            &&& came.last_fingerprint == Some(fingerprint)
            &&& came.attempted_fingerprint == state.attempted_fingerprint
            &&& came.send_error == state.send_error
            &&& came.origin == state.origin && came.sequence == state.sequence
            &&& came.capture_error == state.capture_error && came.seen == state.seen
            &&& came.transfers == state.transfers
        }),
{
}

/// Whether two sessions differ in what is coming in only.
pub open spec fn same_but_transfers(a: DirectState, b: DirectState) -> bool {
    &&& a.origin == b.origin
    &&& a.sequence == b.sequence
    &&& a.last_fingerprint == b.last_fingerprint
    &&& a.attempted_fingerprint == b.attempted_fingerprint
    &&& a.capture_error == b.capture_error
    &&& a.send_error == b.send_error
}

/// A clipboard is put on the clipboard once, all of it; its identifier is remembered.
pub proof fn law_clipboard_is_applied(state: DirectState, id: Seq<char>, payload: PayloadView)
    ensures
        ({
            let (after, action) = state.on_message(MessageView::Clipboard { id, payload });
            &&& same_but_transfers(after, state)
            &&& after.transfers == state.transfers
            &&& state.seen.contains(id) ==> action == ActionView::Ignore && after == state
            &&& !state.seen.contains(id) ==> action == (ActionView::Apply {
                fingerprint: payload_hash(payload),
                payload,
            }) && after.seen == seen_after(state.seen, id)
        }),
{
}

/// A transfer begins once, if its manifest is in order: it is put last, with nothing of it
/// received, and takes the place of one of the same identifier.
pub proof fn law_transfer_begins(
    state: DirectState,
    id: Seq<char>,
    fingerprint: u64,
    entries: Seq<EntryView>,
    rest: Seq<SessionView<TransferView>>,
)
    requires
        (none_has(state.transfers, 0, id) && rest == state.transfers) || exists|at: int| #[trigger]
            has_at(state.transfers, 0, id, at) && rest == state.transfers.remove(at),
    ensures
        ({
            let (after, action) = state.on_message(
                MessageView::TransferStart { id, fingerprint, entries },
            );
            let numbers = file_numbers(entries);
            &&& same_but_transfers(after, state)
            &&& state.seen.contains(id) ==> after == state && action == ActionView::Ignore
            &&& !state.seen.contains(id) ==> after.seen == seen_after(state.seen, id)
            &&& !state.seen.contains(id) && manifest_fault(id, entries) is Some ==> action
                == ActionView::Refuse(Refusal::Manifest(manifest_fault(id, entries)->0))
                && after.transfers == state.transfers
            &&& !state.seen.contains(id) && manifest_fault(id, entries) is None ==> action
                == ActionView::Begin && after.transfers.len() == rest.len() + 1
                && after.transfers.take(rest.len() as int) == rest && ({
                let session = after.transfers.last();
                &&& session.peer == 0
                &&& session.id == id
                &&& session.item.directory == transfer_directory(id)
                &&& session.item.entries == entries
                &&& session.item.files.len() == numbers.len()
                &&& forall|i: int|
                    0 <= i < numbers.len() ==> #[trigger] session.item.files[i] == (FileView {
                        entry: numbers[i],
                        expected: entries[numbers[i]].size as nat,
                        received: Seq::<u8>::empty(),
                        finished: false,
                    })
            })
        }),
{
    if none_has(state.transfers, 0, id) {
        law_other_sessions_are_not_found(state.transfers, 0, id);
    } else {
        let at = choose|at: int| #[trigger]
            has_at(state.transfers, 0, id, at) && rest == state.transfers.remove(at);
        law_sessions_are_found(state.transfers, 0, id, at);
    }
    let (after, action) = state.on_message(MessageView::TransferStart { id, fingerprint, entries });
    if action == ActionView::Begin {
        assert(after.transfers.take(rest.len() as int) == rest);
    }
}

/// A piece of a file is written where it belongs: the next piece of a file that is not
/// over, of at most a mebibyte and no longer than what is missing, is written to that file
/// and to nothing else, and what was received grows by it. Any other piece ends the
/// transfer.
pub proof fn law_piece_is_written(
    state: DirectState,
    id: Seq<char>,
    index: u32,
    offset: u64,
    bytes: Seq<u8>,
    at: int,
)
    requires
        has_at(state.transfers, 0, id, at),
    ensures
        ({
            let before = state.transfers[at];
            let files = before.item.files;
            let file = files[index as int];
            let (after, action) = state.on_message(
                MessageView::TransferChunk { id, file_index: index, offset, bytes },
            );
            let fits = index < files.len() && !file.finished && offset == file.received.len() && 1
                <= bytes.len() <= 1_048_576 && file.received.len() + bytes.len() <= file.expected;
            &&& same_but_transfers(after, state)
            &&& after.seen == state.seen
            &&& fits ==> {
                let now = after.transfers[at];
                &&& action == (ActionView::Write {
                    entry: file.entry,
                    create: file.received.len() == 0,
                    bytes,
                })
                &&& after.transfers == state.transfers.update(at, now)
                &&& now.peer == before.peer && now.id == before.id
                &&& now.item.directory == before.item.directory
                &&& now.item.entries == before.item.entries
                &&& now.item.files == files.update(
                    index as int,
                    FileView {
                        entry: file.entry,
                        expected: file.expected,
                        received: file.received + bytes,
                        finished: false,
                    },
                )
            }
            &&& !fits ==> {
                &&& chunk_fault(files, index, offset, bytes) matches Some(error)
                &&& action == (ActionView::GiveUp {
                    directory: before.item.directory,
                    refusal: Refusal::Chunk(error),
                })
                &&& after.transfers == state.transfers.remove(at)
            }
        }),
{
    law_sessions_are_found(state.transfers, 0, id, at);
}

/// A file is put in its place when all of it has come and its digest is the one announced,
/// once, and only then.
pub proof fn law_whole_file_is_kept(
    state: DirectState,
    id: Seq<char>,
    index: u32,
    digest: Seq<u8>,
    at: int,
)
    requires
        has_at(state.transfers, 0, id, at),
    ensures
        ({
            let before = state.transfers[at];
            let files = before.item.files;
            let file = files[index as int];
            let (after, action) = state.on_message(
                MessageView::TransferFileEnd { id, file_index: index, sha256: digest },
            );
            let whole = index < files.len() && !file.finished && file.received.len()
                == file.expected && sha256(file.received) == digest;
            &&& same_but_transfers(after, state)
            &&& after.seen == state.seen
            &&& whole ==> {
                let now = after.transfers[at];
                &&& action == (ActionView::Commit { entry: file.entry, create: file.expected == 0 })
                &&& after.transfers == state.transfers.update(at, now)
                &&& now.peer == before.peer && now.id == before.id
                &&& now.item.directory == before.item.directory
                &&& now.item.entries == before.item.entries
                &&& now.item.files == files.update(
                    index as int,
                    FileView {
                        entry: file.entry,
                        expected: file.expected,
                        received: file.received,
                        finished: true,
                    },
                )
            }
            &&& !whole ==> {
                &&& end_fault(files, index, digest) matches Some(error)
                &&& action == (ActionView::GiveUp {
                    directory: before.item.directory,
                    refusal: Refusal::FileEnd(error),
                })
                &&& after.transfers == state.transfers.remove(at)
            }
        }),
{
    law_sessions_are_found(state.transfers, 0, id, at);
}

/// A transfer whose files are all in place is finished; one that lacks a file is given up;
/// one that is taken back goes. Each way it is over, and no other is.
pub proof fn law_transfer_ends(state: DirectState, id: Seq<char>, at: int)
    requires
        has_at(state.transfers, 0, id, at),
    ensures
        ({
            let item = state.transfers[at].item;
            let (after, action) = state.on_message(MessageView::TransferEnd { id });
            let whole = forall|i: int|
                0 <= i < item.files.len() ==> (#[trigger] item.files[i]).finished;
            &&& same_but_transfers(after, state)
            &&& after.seen == state.seen
            &&& after.transfers == state.transfers.remove(at)
            &&& whole ==> action == (ActionView::Finish { transfer: item })
            &&& !whole ==> action == (ActionView::GiveUp {
                directory: item.directory,
                refusal: Refusal::TransferEnd(TransferError::Unfinished),
            })
        }),
        ({
            let (after, action) = state.on_message(MessageView::TransferAbort { id });
            &&& same_but_transfers(after, state)
            &&& after.seen == state.seen
            &&& after.transfers == state.transfers.remove(at)
            &&& action == (ActionView::Aborted { directory: state.transfers[at].item.directory })
        }),
{
    law_sessions_are_found(state.transfers, 0, id, at);
}

/// What belongs to no transfer is refused, and changes nothing.
pub proof fn law_strays_change_nothing(
    state: DirectState,
    id: Seq<char>,
    index: u32,
    offset: u64,
    bytes: Seq<u8>,
)
    requires
        none_has(state.transfers, 0, id),
    ensures
        state.on_message(MessageView::TransferChunk { id, file_index: index, offset, bytes }) == (
            state,
            ActionView::Refuse(Refusal::UnknownTransfer),
        ),
        state.on_message(MessageView::TransferFileEnd { id, file_index: index, sha256: bytes }) == (
            state,
            ActionView::Refuse(Refusal::UnknownTransfer),
        ),
        state.on_message(MessageView::TransferEnd { id }) == (
            state,
            ActionView::Refuse(Refusal::UnknownTransfer),
        ),
        state.on_message(MessageView::TransferAbort { id }) == (state, ActionView::Ignore),
{
    law_other_sessions_are_not_found(state.transfers, 0, id);
}

} // verus!
