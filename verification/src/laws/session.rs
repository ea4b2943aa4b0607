//! What a session does.

use vstd::prelude::*;
use vstd::utf8::encode_utf8;

use crate::fingerprint::{payload_hash, transfer_directory};
use crate::image::{ImageError, ImageView};
use crate::manifest::manifest_fault;
use crate::progress::{chunk_fault, end_fault, FileView};
use crate::receive::TransferView;
use crate::seen::seen_after;
use crate::sessions::{
    announced, distinct, dropped, is_active, kept, place, without, DropRule, SessionView,
};
use crate::state::{directories, message_id, missing, ActionView, Refusal, StateView};
use crate::text::decimal;
use crate::wire::{
    total_size, EntryView, IncomingEvent, MessageView, PayloadView, WireMessage,
};

verus! {

/// The devices that do not have a clipboard are picked out in order: one that has it is
/// left out, every other one stays.
pub proof fn law_targets_are_those_without(peers: Seq<u64>, peer: u64, have: Set<u64>)
    ensures
        missing(Seq::<u64>::empty(), have).len() == 0,
        have.contains(peer) ==> missing(peers.push(peer), have) == missing(peers, have),
        !have.contains(peer) ==> missing(peers.push(peer), have) == missing(peers, have).push(
            peer,
        ),
{
    assert(peers.push(peer).drop_last() == peers);
}

proof fn lemma_nobody_has(peers: Seq<u64>)
    ensures
        missing(peers, Set::empty()) == peers,
    decreases peers.len(),
{
    if peers.len() > 0 {
        lemma_nobody_has(peers.drop_last());
        assert(peers.drop_last().push(peers.last()) == peers);
    }
}

/// A new clipboard goes to everybody: whatever its fingerprint, if it is not the one that
/// was sent or came in last, all devices are sent it, in their order.
pub proof fn law_new_clipboard_goes_to_everybody(
    state: StateView,
    fingerprint: u64,
    peers: Seq<u64>,
)
    requires
        state.last_fingerprint != Some(fingerprint),
    ensures
        missing(peers, state.have(fingerprint)) == peers,
{
    lemma_nobody_has(peers);
    assert(state.have(fingerprint) == Set::<u64>::empty());
}

/// The clipboard that was sent or came in last goes to those devices that were not sent it
/// and did not send it.
pub proof fn law_known_clipboard_goes_to_the_rest(
    state: StateView,
    fingerprint: u64,
    peers: Seq<u64>,
    peer: u64,
)
    requires
        state.last_fingerprint == Some(fingerprint),
    ensures
        missing(peers, state.have(fingerprint)).contains(peer) <==> peers.contains(peer)
            && !state.sent_peers.contains(peer),
{
    lemma_missing_contains(peers, state.sent_peers, peer);
}

proof fn lemma_missing_contains(peers: Seq<u64>, have: Set<u64>, peer: u64)
    ensures
        missing(peers, have).contains(peer) <==> peers.contains(peer) && !have.contains(peer),
    decreases peers.len(),
{
    if peers.len() > 0 {
        let rest = peers.drop_last();
        let found = missing(rest, have);
        lemma_missing_contains(rest, have, peer);
        assert(peers == rest.push(peers.last()));
        if found.contains(peer) {
            let k = choose|k: int| 0 <= k < found.len() && found[k] == peer;
            assert(found.push(peers.last())[k] == peer);
        }
        if rest.contains(peer) {
            let k = choose|k: int| 0 <= k < rest.len() && rest[k] == peer;
            assert(peers[k] == peer);
        }
        assert(peers[peers.len() - 1] == peers.last());
        assert(found.push(peers.last())[found.len() as int] == peers.last());
        if found.push(peers.last()).contains(peer) && peer != peers.last() {
            let all = found.push(peers.last());
            let k = choose|k: int| 0 <= k < all.len() && all[k] == peer;
            assert(found[k] == peer);
        }
        if peers.contains(peer) && peer != peers.last() {
            let k = choose|k: int| 0 <= k < peers.len() && peers[k] == peer;
            assert(rest[k] == peer);
        }
    }
}

/// A clipboard that came in is the known one, and goes to everybody but the device that
/// sent it and, if it was the known one before, those that had it; nothing else changes
/// but that sending is no longer known to fail.
pub proof fn law_clipboard_that_came_in_is_not_sent_back(
    state: StateView,
    fingerprint: u64,
    peer: u64,
    other: u64,
)
    ensures
        ({
            let after = state.remote_applied(fingerprint, peer);
            &&& after.last_fingerprint == Some(fingerprint)
            &&& after.have(fingerprint).contains(other) <==> other == peer || (
            state.last_fingerprint == Some(fingerprint) && state.sent_peers.contains(other))
            &&& after.send_error is None
            &&& after.origin == state.origin
            &&& after.sequence == state.sequence
            &&& after.capture_error == state.capture_error
            &&& after.completed == state.completed
            &&& after.transfers == state.transfers
            &&& after.images == state.images
        }),
{
}

/// Messages are numbered from one, up to the largest number.
pub proof fn law_messages_are_numbered(state: StateView)
    ensures
        state.sequence < u64::MAX ==> state.next_sequence() == state.sequence + 1,
        state.sequence == u64::MAX ==> state.next_sequence() == u64::MAX,
{
}

/// A transfer is found by its device and its identifier, both of them, and by nothing else.
pub proof fn law_sessions_are_found<V>(
    sessions: Seq<SessionView<V>>,
    peer: u64,
    id: Seq<char>,
    at: int,
)
    requires
        distinct(sessions),
        0 <= at < sessions.len(),
        sessions[at].peer == peer,
        sessions[at].id == id,
    ensures
        is_active(sessions, peer, id),
        place(sessions, peer, id) == at,
        without(sessions, peer, id) == sessions.remove(at),
{
    lemma_found(sessions, peer, id, at);
}

proof fn lemma_found<V>(sessions: Seq<SessionView<V>>, peer: u64, id: Seq<char>, at: int)
    requires
        distinct(sessions),
        0 <= at < sessions.len(),
        sessions[at].peer == peer,
        sessions[at].id == id,
    ensures
        place(sessions, peer, id) == at,
    decreases sessions.len(),
{
    if at > 0 {
        let rest = sessions.skip(1);
        assert(!(sessions[0].peer == sessions[at].peer && sessions[0].id == sessions[at].id));
        assert forall|i: int, j: int| 0 <= i < j < rest.len() implies !((
        #[trigger] rest[i]).peer == (#[trigger] rest[j]).peer && rest[i].id == rest[j].id) by {
            assert(rest[i] == sessions[i + 1]);
            assert(rest[j] == sessions[j + 1]);
        }
        lemma_found(rest, peer, id, at - 1);
    }
}

/// Where no transfer has this device and this identifier, none is found.
pub proof fn law_other_sessions_are_not_found<V>(
    sessions: Seq<SessionView<V>>,
    peer: u64,
    id: Seq<char>,
)
    requires
        forall|i: int|
            0 <= i < sessions.len() ==> !((#[trigger] sessions[i]).peer == peer && sessions[i].id
                == id),
    ensures
        !is_active(sessions, peer, id),
        without(sessions, peer, id) == sessions,
    decreases sessions.len(),
{
    if sessions.len() > 0 {
        assert(!(sessions[0].peer == peer && sessions[0].id == id));
        let rest = sessions.skip(1);
        assert forall|i: int| 0 <= i < rest.len() implies !((#[trigger] rest[i]).peer == peer
            && rest[i].id == id) by {
            assert(rest[i] == sessions[i + 1]);
        }
        law_other_sessions_are_not_found(rest, peer, id);
    }
}

/// What transfers announce adds up.
pub proof fn law_announcements_add_up<V>(sessions: Seq<SessionView<V>>, session: SessionView<V>)
    ensures
        announced(Seq::<SessionView<V>>::empty()) == 0,
        announced(sessions.push(session)) == announced(sessions) + session.size,
{
    assert(sessions.push(session).drop_last() == sessions);
}

/// A transfer stays until its device has gone, or for five minutes, in nanoseconds, without
/// a message; then it goes. Those that stay keep their order, and so do those that go.
pub proof fn law_idle_and_orphaned_sessions_go<V>(
    sessions: Seq<SessionView<V>>,
    session: SessionView<V>,
    gone: u64,
    now: u64,
)
    ensures
        ({
            let rule = DropRule::Peer { peer_id: gone };
            let all = sessions.push(session);
            &&& kept(Seq::<SessionView<V>>::empty(), rule).len() == 0
            &&& dropped(Seq::<SessionView<V>>::empty(), rule).len() == 0
            &&& session.peer == gone ==> kept(all, rule) == kept(sessions, rule) && dropped(
                all,
                rule,
            ) == dropped(sessions, rule).push(session)
            &&& session.peer != gone ==> kept(all, rule) == kept(sessions, rule).push(session)
                && dropped(all, rule) == dropped(sessions, rule)
        }),
        ({
            let rule = DropRule::Idle { now };
            let all = sessions.push(session);
            &&& kept(Seq::<SessionView<V>>::empty(), rule).len() == 0
            &&& dropped(Seq::<SessionView<V>>::empty(), rule).len() == 0
            &&& now - session.last >= 300_000_000_000 ==> kept(all, rule) == kept(sessions, rule)
                && dropped(all, rule) == dropped(sessions, rule).push(session)
            &&& now - session.last < 300_000_000_000 ==> kept(all, rule) == kept(
                sessions,
                rule,
            ).push(session) && dropped(all, rule) == dropped(sessions, rule)
        }),
{
    assert(sessions.push(session).drop_last() == sessions);
}

/// A disconnect ends what the device was sending, frees its directories, forgets that it
/// has the clipboard, and touches nothing else.
pub proof fn law_disconnect_touches_one_device(state: StateView, peer: u64, other: u64)
    requires
        other != peer,
    ensures
        ({
            let after = state.on_disconnect(peer).state;
            &&& !after.sent_peers.contains(peer)
            &&& after.sent_peers.contains(other) == state.sent_peers.contains(other)
            &&& after.last_fingerprint == state.last_fingerprint
            &&& after.origin == state.origin
            &&& after.sequence == state.sequence
            &&& after.capture_error == state.capture_error
            &&& after.send_error == state.send_error
            &&& after.completed == state.completed
            &&& after.transfers == kept(state.transfers, DropRule::Peer { peer_id: peer })
            &&& after.images == kept(state.images, DropRule::Peer { peer_id: peer })
        }),
        state.on_disconnect(peer).action == ActionView::Ignore,
        state.on_disconnect(peer).removed.len() == dropped(
            state.transfers,
            DropRule::Peer { peer_id: peer },
        ).len(),
        forall|i: int|
            0 <= i < state.on_disconnect(peer).removed.len() ==> (
            #[trigger] state.on_disconnect(peer).removed[i]) == dropped(
                state.transfers,
                DropRule::Peer { peer_id: peer },
            )[i].item.directory,
{
}

/// The last two hundred and fifty-six identifiers are remembered: one that is known changes
/// nothing, a new one is put last, and only when there is no room for it does the oldest
/// go.
pub proof fn law_identifiers_are_remembered(seen: Seq<Seq<char>>, id: Seq<char>)
    requires
        seen.len() <= 256,
    ensures
        seen.contains(id) ==> seen_after(seen, id) == seen,
        !seen.contains(id) && seen.len() < 256 ==> seen_after(seen, id) == seen.push(id),
        !seen.contains(id) && seen.len() == 256 ==> seen_after(seen, id) == seen.skip(1).push(id),
{
    assert(seen.len() == 256 ==> seen.push(id).skip(1) == seen.skip(1).push(id));
}

/// Whether a message of this identifier can still have an effect: the identifier has
/// between one and two hundred and fifty-six bytes, and its message was not applied.
pub open spec fn is_awaited(state: StateView, id: Seq<char>) -> bool {
    1 <= encode_utf8(id).len() <= 256 && forall|i: int|
        0 <= i < state.completed.len() ==> #[trigger] state.completed[i] != id
}

proof fn lemma_awaited(state: StateView, id: Seq<char>)
    ensures
        state.open_id(id) <==> is_awaited(state, id),
{
    if state.completed.contains(id) {
        let i = choose|i: int| 0 <= i < state.completed.len() && state.completed[i] == id;
        assert(!is_awaited(state, id));
    }
}

/// A clipboard that comes in one message is put on the clipboard, all of it, unless its
/// identifier is unfit or was applied before; the session stays as it is until then.
pub proof fn law_clipboard_is_applied(
    state: StateView,
    peer: u64,
    id: Seq<char>,
    payload: PayloadView,
    now: u64,
)
    ensures
        ({
            let outcome = state.on_message(
                peer,
                MessageView::Clipboard { id, payload },
                now,
            );
            &&& outcome.state == state
            &&& outcome.removed.len() == 0
            &&& is_awaited(state, id) ==> outcome.action == (ActionView::Apply {
                id,
                fingerprint: payload_hash(payload),
                payload,
            })
            &&& !is_awaited(state, id) ==> outcome.action == ActionView::Ignore
        }),
{
    lemma_awaited(state, id);
}

/// Whether two sessions differ in what is coming in only.
pub open spec fn same_but_incoming(a: StateView, b: StateView) -> bool {
    &&& a.origin == b.origin
    &&& a.sequence == b.sequence
    &&& a.last_fingerprint == b.last_fingerprint
    &&& a.sent_peers == b.sent_peers
    &&& a.capture_error == b.capture_error
    &&& a.send_error == b.send_error
    &&& a.completed == b.completed
}

/// Whether nothing of this device and this identifier is coming in.
pub open spec fn none_has<V>(sessions: Seq<SessionView<V>>, peer: u64, id: Seq<char>) -> bool {
    forall|i: int|
        0 <= i < sessions.len() ==> !((#[trigger] sessions[i]).peer == peer && sessions[i].id == id)
}

/// Whether this is what of this device and this identifier is coming in.
pub open spec fn has_at<V>(
    sessions: Seq<SessionView<V>>,
    peer: u64,
    id: Seq<char>,
    at: int,
) -> bool {
    distinct(sessions) && 0 <= at < sessions.len() && sessions[at].peer == peer && sessions[at].id
        == id
}

/// Messages of an identifier that is unfit, or that was applied before, change nothing,
/// but that what ends or is taken back goes.
pub proof fn law_unfit_messages_are_ignored(
    state: StateView,
    peer: u64,
    id: Seq<char>,
    entries: Seq<EntryView>,
    index: u32,
    offset: u64,
    bytes: Seq<u8>,
    fingerprint: u64,
    width: u32,
    height: u32,
    now: u64,
)
    requires
        !is_awaited(state, id),
    ensures
        state.on_transfer_start(peer, id, entries, now) == state.with(ActionView::Ignore),
        state.on_transfer_chunk(peer, id, index, offset, bytes, now) == state.with(
            ActionView::Ignore,
        ),
        state.on_file_end(peer, id, index, bytes, now) == state.with(ActionView::Ignore),
        state.on_image_start(peer, id, fingerprint, width, height, offset, now) == state.with(
            ActionView::Ignore,
        ),
        state.on_image_chunk(peer, id, offset, bytes, now) == state.with(ActionView::Ignore),
        state.with(ActionView::Ignore).state == state,
        state.with(ActionView::Ignore).removed.len() == 0,
        state.with(ActionView::Ignore).action == ActionView::Ignore,
        state.on_transfer_end(peer, id).action == ActionView::Ignore,
        state.on_image_end(peer, id, bytes).action == ActionView::Ignore,
        !(1 <= encode_utf8(id).len() <= 256) ==> state.on_transfer_end(peer, id).state == state
            && state.on_image_end(peer, id, bytes).state == state,
{
    lemma_awaited(state, id);
    if 1 <= encode_utf8(id).len() <= 256 {
        assert(state.completed.contains(id));
    }
}

/// A transfer begins if its manifest is in order, fewer than sixteen are coming in, and
/// with it no more than sixty-four gibibytes are announced. It is put last, with nothing
/// of it received, and takes the place of one of the same device and identifier.
pub proof fn law_transfer_begins(
    state: StateView,
    peer: u64,
    id: Seq<char>,
    entries: Seq<EntryView>,
    now: u64,
    rest: Seq<SessionView<TransferView>>,
)
    requires
        is_awaited(state, id),
        (none_has(state.transfers, peer, id) && rest == state.transfers) || exists|at: int| #[trigger]
            has_at(state.transfers, peer, id, at) && rest == state.transfers.remove(at),
    ensures
        ({
            let outcome = state.on_transfer_start(peer, id, entries, now);
            let begins = rest.len() < 16 && announced(rest) + total_size(entries) <= 68_719_476_736
                && manifest_fault(entries) is None;
            &&& same_but_incoming(outcome.state, state)
            &&& outcome.state.images == state.images
            &&& begins <==> outcome.action == ActionView::Begin
            &&& !begins ==> outcome.action is Refuse && outcome.state.transfers == rest
            &&& rest.len() >= 16 ==> outcome.action == ActionView::Refuse(
                Refusal::TooManyTransfers,
            )
            &&& rest.len() < 16 && total_size(entries) > u64::MAX ==> outcome.action
                == ActionView::Refuse(Refusal::TransferSizeOverflow)
            &&& rest.len() < 16 && total_size(entries) <= u64::MAX && announced(rest) + total_size(
                entries,
            ) > 68_719_476_736 ==> outcome.action == ActionView::Refuse(
                Refusal::TooManyTransferBytes,
            )
            &&& rest.len() < 16 && announced(rest) + total_size(entries) <= 68_719_476_736
                && manifest_fault(entries) is Some ==> outcome.action == ActionView::Refuse(
                Refusal::Manifest(manifest_fault(entries)->0),
            )
            &&& begins ==> outcome.state.transfers.len() == rest.len() + 1
                && outcome.state.transfers.take(rest.len() as int) == rest && ({
                let session = outcome.state.transfers.last();
                &&& session.peer == peer
                &&& session.id == id
                &&& session.last == now
                &&& session.size == total_size(entries)
                &&& session.item.entries == entries
                &&& session.item.directory == state.directory_name(peer, id)
                &&& session.item.files.len() == crate::manifest::file_numbers(entries).len()
                &&& forall|i: int|
                    0 <= i < session.item.files.len() ==> #[trigger] session.item.files[i]
                        == (FileView {
                        entry: crate::manifest::file_numbers(entries)[i],
                        expected: entries[crate::manifest::file_numbers(entries)[i]].size as nat,
                        received: Seq::<u8>::empty(),
                        finished: false,
                    })
            })
        }),
        none_has(state.transfers, peer, id) ==> state.on_transfer_start(
            peer,
            id,
            entries,
            now,
        ).removed.len() == 0,
        forall|at: int| #[trigger]
            has_at(state.transfers, peer, id, at) ==> state.on_transfer_start(
                peer,
                id,
                entries,
                now,
            ).removed == seq![state.transfers[at].item.directory],
{
    lemma_awaited(state, id);
    if none_has(state.transfers, peer, id) {
        law_other_sessions_are_not_found(state.transfers, peer, id);
    } else {
        let at = choose|at: int| #[trigger]
            has_at(state.transfers, peer, id, at) && rest == state.transfers.remove(at);
        law_sessions_are_found(state.transfers, peer, id, at);
    }
    assert forall|at: int| #[trigger] has_at(
        state.transfers,
        peer,
        id,
        at,
    ) implies state.on_transfer_start(peer, id, entries, now).removed
        == seq![state.transfers[at].item.directory] by {
        law_sessions_are_found(state.transfers, peer, id, at);
    }
    let outcome = state.on_transfer_start(peer, id, entries, now);
    if outcome.action == ActionView::Begin {
        assert(outcome.state.transfers.take(rest.len() as int) == rest);
    }
}

/// A piece of a file is written where it belongs: the next piece of a file that is not
/// over, of at most a mebibyte and no longer than what is missing, is written to that file
/// and to nothing else, and what was received grows by it.
pub proof fn law_piece_is_written(
    state: StateView,
    peer: u64,
    id: Seq<char>,
    index: u32,
    offset: u64,
    bytes: Seq<u8>,
    now: u64,
    at: int,
)
    requires
        is_awaited(state, id),
        has_at(state.transfers, peer, id, at),
    ensures
        ({
            let before = state.transfers[at];
            let files = before.item.files;
            let file = files[index as int];
            let outcome = state.on_transfer_chunk(peer, id, index, offset, bytes, now);
            let fits = index < files.len() && !file.finished && offset == file.received.len() && 1
                <= bytes.len() <= 1_048_576 && file.received.len() + bytes.len() <= file.expected;
            &&& same_but_incoming(outcome.state, state)
            &&& outcome.state.images == state.images
            &&& fits ==> {
                let after = outcome.state.transfers[at];
                &&& outcome.action == (ActionView::Write {
                    entry: file.entry,
                    create: file.received.len() == 0,
                    bytes,
                })
                &&& outcome.removed.len() == 0
                &&& outcome.state.transfers == state.transfers.update(at, after)
                &&& after.peer == before.peer && after.id == before.id && after.size == before.size
                &&& after.last == now
                &&& after.item.directory == before.item.directory
                &&& after.item.entries == before.item.entries
                &&& after.item.files == files.update(index as int, after.item.files[index as int])
                &&& after.item.files[index as int].entry == file.entry
                &&& after.item.files[index as int].expected == file.expected
                &&& after.item.files[index as int].received == file.received + bytes
                &&& !after.item.files[index as int].finished
            }
            &&& !fits ==> {
                &&& chunk_fault(files, index, offset, bytes) matches Some(error)
                &&& outcome.action == ActionView::Refuse(Refusal::Chunk(error))
                &&& outcome.state.transfers == state.transfers.remove(at)
                &&& outcome.removed == seq![before.item.directory]
            }
        }),
{
    lemma_awaited(state, id);
    law_sessions_are_found(state.transfers, peer, id, at);
}

/// A file is put in its place when all of it has come and its digest is the one announced,
/// once, and only then.
pub proof fn law_whole_file_is_kept(
    state: StateView,
    peer: u64,
    id: Seq<char>,
    index: u32,
    digest: Seq<u8>,
    now: u64,
    at: int,
)
    requires
        is_awaited(state, id),
        has_at(state.transfers, peer, id, at),
    ensures
        ({
            let before = state.transfers[at];
            let files = before.item.files;
            let file = files[index as int];
            let outcome = state.on_file_end(peer, id, index, digest, now);
            let whole = index < files.len() && !file.finished && file.received.len()
                == file.expected && crate::digest::sha256(file.received) == digest;
            &&& same_but_incoming(outcome.state, state)
            &&& outcome.state.images == state.images
            &&& whole ==> {
                let after = outcome.state.transfers[at];
                &&& outcome.action == (ActionView::Commit {
                    entry: file.entry,
                    create: file.expected == 0,
                })
                &&& outcome.removed.len() == 0
                &&& outcome.state.transfers == state.transfers.update(at, after)
                &&& after.peer == before.peer && after.id == before.id && after.size == before.size
                &&& after.last == now
                &&& after.item.directory == before.item.directory
                &&& after.item.entries == before.item.entries
                &&& after.item.files == files.update(index as int, after.item.files[index as int])
                &&& after.item.files[index as int].entry == file.entry
                &&& after.item.files[index as int].expected == file.expected
                &&& after.item.files[index as int].received == file.received
                &&& after.item.files[index as int].finished
            }
            &&& !whole ==> {
                &&& end_fault(files, index, digest) matches Some(error)
                &&& outcome.action == ActionView::Refuse(Refusal::FileEnd(error))
                &&& outcome.state.transfers == state.transfers.remove(at)
                &&& outcome.removed == seq![before.item.directory]
            }
        }),
{
    lemma_awaited(state, id);
    law_sessions_are_found(state.transfers, peer, id, at);
}

/// A transfer whose files are all in place is finished; one that lacks a file is given up,
/// and its directory removed. Either way it is over, and no other is.
pub proof fn law_whole_transfer_is_finished(state: StateView, peer: u64, id: Seq<char>, at: int)
    requires
        is_awaited(state, id),
        has_at(state.transfers, peer, id, at),
    ensures
        ({
            let item = state.transfers[at].item;
            let outcome = state.on_transfer_end(peer, id);
            let whole = forall|i: int|
                0 <= i < item.files.len() ==> (#[trigger] item.files[i]).finished;
            &&& same_but_incoming(outcome.state, state)
            &&& outcome.state.images == state.images
            &&& outcome.state.transfers == state.transfers.remove(at)
            &&& whole ==> outcome.action == (ActionView::Finish { id, transfer: item })
                && outcome.removed.len() == 0
            &&& !whole ==> outcome.action == ActionView::Refuse(
                Refusal::TransferEnd(crate::progress::TransferError::Unfinished),
            ) && outcome.removed == seq![item.directory]
        }),
{
    lemma_awaited(state, id);
    law_sessions_are_found(state.transfers, peer, id, at);
}

/// Pieces and ends of what is not coming in are ignored, and the end of such a transfer is
/// refused; nothing changes.
pub proof fn law_strays_change_nothing(
    state: StateView,
    peer: u64,
    id: Seq<char>,
    index: u32,
    offset: u64,
    bytes: Seq<u8>,
    now: u64,
)
    requires
        is_awaited(state, id),
    ensures
        none_has(state.transfers, peer, id) ==> {
            &&& state.on_transfer_chunk(peer, id, index, offset, bytes, now) == state.with(
                ActionView::Ignore,
            )
            &&& state.on_file_end(peer, id, index, bytes, now) == state.with(ActionView::Ignore)
            &&& state.on_transfer_end(peer, id) == state.with(
                ActionView::Refuse(Refusal::UnknownTransfer),
            )
        },
        none_has(state.images, peer, id) ==> {
            &&& state.on_image_chunk(peer, id, offset, bytes, now) == state.with(
                ActionView::Ignore,
            )
            &&& state.on_image_end(peer, id, bytes) == state.with(
                ActionView::Refuse(Refusal::UnknownImage),
            )
        },
        forall|action: ActionView|
            {
                &&& (#[trigger] state.with(action)).state == state
                &&& state.with(action).removed.len() == 0
                &&& state.with(action).action == action
            },
{
    lemma_awaited(state, id);
    if none_has(state.transfers, peer, id) {
        law_other_sessions_are_not_found(state.transfers, peer, id);
    }
    if none_has(state.images, peer, id) {
        law_other_sessions_are_not_found(state.images, peer, id);
    }
}

/// What is taken back goes, whatever the identifier, and nothing else does.
pub proof fn law_taken_back_goes(state: StateView, peer: u64, id: Seq<char>)
    ensures
        ({
            let outcome = state.on_abort(peer, id);
            &&& same_but_incoming(outcome.state, state)
            &&& outcome.action == ActionView::Aborted
            &&& none_has(state.transfers, peer, id) ==> outcome.state.transfers == state.transfers
                && outcome.removed.len() == 0
            &&& none_has(state.images, peer, id) ==> outcome.state.images == state.images
            &&& forall|at: int| #[trigger]
                has_at(state.transfers, peer, id, at) ==> outcome.state.transfers
                    == state.transfers.remove(at) && outcome.removed
                    == seq![state.transfers[at].item.directory]
            &&& forall|at: int| #[trigger]
                has_at(state.images, peer, id, at) ==> outcome.state.images == state.images.remove(
                    at,
                )
        }),
{
    let outcome = state.on_abort(peer, id);
    if none_has(state.transfers, peer, id) {
        law_other_sessions_are_not_found(state.transfers, peer, id);
    }
    if none_has(state.images, peer, id) {
        law_other_sessions_are_not_found(state.images, peer, id);
    }
    assert forall|at: int| #[trigger] has_at(
        state.transfers,
        peer,
        id,
        at,
    ) implies outcome.state.transfers == state.transfers.remove(at) && outcome.removed
        == seq![state.transfers[at].item.directory] by {
        law_sessions_are_found(state.transfers, peer, id, at);
    }
    assert forall|at: int| #[trigger] has_at(
        state.images,
        peer,
        id,
        at,
    ) implies outcome.state.images == state.images.remove(at) by {
        law_sessions_are_found(state.images, peer, id, at);
    }
}

/// An image begins if it has a width, a height and between one byte and sixty-four
/// mebibytes, fewer than four are coming in, and with it no more than two hundred and
/// fifty-six mebibytes are announced. It takes the place of one of the same device and
/// identifier.
pub proof fn law_image_begins(
    state: StateView,
    peer: u64,
    id: Seq<char>,
    fingerprint: u64,
    width: u32,
    height: u32,
    size: u64,
    now: u64,
    rest: Seq<SessionView<ImageView>>,
)
    requires
        is_awaited(state, id),
        (none_has(state.images, peer, id) && rest == state.images) || exists|at: int| #[trigger]
            has_at(state.images, peer, id, at) && rest == state.images.remove(at),
    ensures
        ({
            let outcome = state.on_image_start(peer, id, fingerprint, width, height, size, now);
            let begins = state.images.len() < 4 && announced(state.images) + size <= 268_435_456
                && width > 0 && height > 0 && 1 <= size <= 67_108_864;
            &&& same_but_incoming(outcome.state, state)
            &&& outcome.state.transfers == state.transfers
            &&& outcome.removed.len() == 0
            &&& begins ==> outcome.action == ActionView::BeginImage && outcome.state.images
                == rest.push(
                SessionView {
                    peer,
                    id,
                    last: now,
                    size,
                    item: ImageView {
                        fingerprint,
                        width,
                        height,
                        expected: size as nat,
                        received: Seq::<u8>::empty(),
                    },
                },
            )
            &&& !begins ==> outcome.action is Refuse && outcome.state.images == state.images
            &&& state.images.len() >= 4 ==> outcome.action == ActionView::Refuse(
                Refusal::TooManyImages,
            )
            &&& state.images.len() < 4 && announced(state.images) + size > 268_435_456
                ==> outcome.action == ActionView::Refuse(Refusal::TooManyImageBytes)
            &&& state.images.len() < 4 && announced(state.images) + size <= 268_435_456 && (width
                == 0 || height == 0) ==> outcome.action == ActionView::Refuse(
                Refusal::ImageStart(ImageError::Empty),
            )
            &&& state.images.len() < 4 && announced(state.images) + size <= 268_435_456 && width
                > 0 && height > 0 && !(1 <= size <= 67_108_864) ==> outcome.action
                == ActionView::Refuse(Refusal::ImageStart(ImageError::TransferSize))
        }),
{
    lemma_awaited(state, id);
    if none_has(state.images, peer, id) {
        law_other_sessions_are_not_found(state.images, peer, id);
    } else {
        let at = choose|at: int| #[trigger]
            has_at(state.images, peer, id, at) && rest == state.images.remove(at);
        law_sessions_are_found(state.images, peer, id, at);
    }
}

/// A piece of an image is taken if it is the next one, has at most a mebibyte and is no
/// longer than what is missing; what was received grows by it. Any other piece ends the
/// image.
pub proof fn law_piece_of_image_is_taken(
    state: StateView,
    peer: u64,
    id: Seq<char>,
    offset: u64,
    bytes: Seq<u8>,
    now: u64,
    at: int,
)
    requires
        is_awaited(state, id),
        has_at(state.images, peer, id, at),
    ensures
        ({
            let before = state.images[at];
            let outcome = state.on_image_chunk(peer, id, offset, bytes, now);
            let fits = offset == before.item.received.len() && 1 <= bytes.len() <= 1_048_576
                && before.item.received.len() + bytes.len() <= before.item.expected;
            &&& same_but_incoming(outcome.state, state)
            &&& outcome.state.transfers == state.transfers
            &&& outcome.removed.len() == 0
            &&& fits ==> outcome.action == ActionView::Took && outcome.state.images
                == state.images.update(
                at,
                SessionView {
                    peer,
                    id,
                    last: now,
                    size: before.size,
                    item: ImageView {
                        fingerprint: before.item.fingerprint,
                        width: before.item.width,
                        height: before.item.height,
                        expected: before.item.expected,
                        received: before.item.received + bytes,
                    },
                },
            )
            &&& !fits ==> {
                &&& before.item.chunk_fault(offset, bytes) matches Some(error)
                &&& outcome.action == ActionView::Refuse(Refusal::ImageChunk(error))
                &&& outcome.state.images == state.images.remove(at)
            }
        }),
{
    lemma_awaited(state, id);
    law_sessions_are_found(state.images, peer, id, at);
}

/// An image that has come whole, with the digest announced, and is one of the size
/// announced, is put on the clipboard as it came, under its fingerprint; any other is
/// refused. Either way it is over.
pub proof fn law_whole_image_is_applied(
    state: StateView,
    peer: u64,
    id: Seq<char>,
    digest: Seq<u8>,
    at: int,
)
    requires
        is_awaited(state, id),
        has_at(state.images, peer, id, at),
    ensures
        ({
            let item = state.images[at].item;
            let outcome = state.on_image_end(peer, id, digest);
            let pixels = crate::image::decoded(
                crate::image::png_header(item.received),
                crate::image::png_frame(item.received),
            );
            let whole = item.received.len() == item.expected && crate::digest::sha256(
                item.received,
            ) == digest && (pixels matches Ok(image) && image.0 == item.width && image.1
                == item.height);
            &&& same_but_incoming(outcome.state, state)
            &&& outcome.state.transfers == state.transfers
            &&& outcome.state.images == state.images.remove(at)
            &&& outcome.removed.len() == 0
            &&& whole ==> outcome.action == (ActionView::Apply {
                id,
                fingerprint: item.fingerprint,
                payload: PayloadView::Image {
                    width: item.width,
                    height: item.height,
                    bytes: item.received,
                },
            })
            &&& !whole ==> {
                &&& item.finish_fault(digest) matches Some(error)
                &&& outcome.action == ActionView::Refuse(Refusal::ImageEnd(error))
            }
        }),
{
    lemma_awaited(state, id);
    law_sessions_are_found(state.images, peer, id, at);
}

/// A session that waits too long for what is coming in gives it up, and changes nothing
/// else.
pub proof fn law_waiting_changes_nothing_else(state: StateView, now: u64)
    ensures
        same_but_incoming(state.expired(now), state),
        state.expired(now).transfers == kept(state.transfers, DropRule::Idle { now }),
        state.expired(now).images == kept(state.images, DropRule::Idle { now }),
{
}

/// Every message goes where it belongs, with all that it says.
pub proof fn law_messages_go_where_they_belong(
    state: StateView,
    peer: u64,
    id: Seq<char>,
    entries: Seq<EntryView>,
    index: u32,
    offset: u64,
    bytes: Seq<u8>,
    fingerprint: u64,
    width: u32,
    height: u32,
    size: u64,
    version: u16,
    now: u64,
)
    ensures
        state.on_message(peer, MessageView::Hello { version }, now) == state.with(
            ActionView::Ignore,
        ),
        state.on_message(peer, MessageView::TransferStart { id, entries }, now)
            == state.on_transfer_start(peer, id, entries, now),
        state.on_message(
            peer,
            MessageView::TransferChunk { id, file_index: index, offset, bytes },
            now,
        ) == state.on_transfer_chunk(peer, id, index, offset, bytes, now),
        state.on_message(
            peer,
            MessageView::TransferFileEnd { id, file_index: index, sha256: bytes },
            now,
        ) == state.on_file_end(peer, id, index, bytes, now),
        state.on_message(peer, MessageView::TransferEnd { id }, now) == state.on_transfer_end(
            peer,
            id,
        ),
        state.on_message(peer, MessageView::TransferAbort { id }, now) == state.on_abort(peer, id),
        state.on_message(
            peer,
            MessageView::ImageStart { id, fingerprint, width, height, size },
            now,
        ) == state.on_image_start(peer, id, fingerprint, width, height, size, now),
        state.on_message(peer, MessageView::ImageChunk { id, offset, bytes }, now)
            == state.on_image_chunk(peer, id, offset, bytes, now),
        state.on_message(peer, MessageView::ImageEnd { id, sha256: bytes }, now)
            == state.on_image_end(peer, id, bytes),
{
}

/// A message is known by where it comes from and by its number.
pub proof fn law_messages_are_named(state: StateView, number: nat)
    ensures
        message_id(state.origin, number) == state.origin + seq!['-'] + decimal(number),
        state.next_message_id() == state.origin + seq!['-'] + decimal(
            state.next_sequence() as nat,
        ),
{
    assert(message_id(state.origin, number) == state.origin + seq!['-'] + decimal(number));
    assert(state.next_message_id() == state.origin + seq!['-'] + decimal(
        state.next_sequence() as nat,
    ));
}

/// The directory of a transfer is named by the session, the device and the identifier.
pub proof fn law_directories_are_named(state: StateView, peer: u64, id: Seq<char>)
    ensures
        state.directory_name(peer, id) == transfer_directory(
            state.origin + seq!['-'] + decimal(peer as nat) + seq!['-'] + id,
        ),
{
    assert((state.origin.push('-') + decimal(peer as nat)).push('-') + id == state.origin + seq![
        '-',
    ] + decimal(peer as nat) + seq!['-'] + id);
}

/// Giving up one transfer takes it off and frees its directory, and touches nothing else.
pub proof fn law_one_transfer_is_given_up(state: StateView, peer: u64, id: Seq<char>)
    ensures
        same_but_incoming(state.without_transfer(peer, id), state),
        state.without_transfer(peer, id).images == state.images,
        none_has(state.transfers, peer, id) ==> state.without_transfer(peer, id).transfers
            == state.transfers && state.directory_of(peer, id).len() == 0,
        forall|at: int| #[trigger]
            has_at(state.transfers, peer, id, at) ==> state.without_transfer(peer, id).transfers
                == state.transfers.remove(at) && state.directory_of(peer, id)
                == seq![state.transfers[at].item.directory],
{
    if none_has(state.transfers, peer, id) {
        law_other_sessions_are_not_found(state.transfers, peer, id);
    }
    assert forall|at: int| #[trigger] has_at(
        state.transfers,
        peer,
        id,
        at,
    ) implies state.without_transfer(peer, id).transfers == state.transfers.remove(at)
        && state.directory_of(peer, id) == seq![state.transfers[at].item.directory] by {
        law_sessions_are_found(state.transfers, peer, id, at);
    }
}

/// What happens is a message of a device, or that it is gone.
pub proof fn law_events_are_told_apart(
    state: StateView,
    peer_id: u64,
    message: WireMessage,
    now: u64,
)
    ensures
        state.on_event(IncomingEvent::Message { peer_id, message }, now) == state.on_message(
            peer_id,
            message@,
            now,
        ),
        state.on_event(IncomingEvent::Disconnected { peer_id }, now) == state.on_disconnect(
            peer_id,
        ),
{
}

/// The directories of transfers are theirs, in their order.
pub proof fn law_directories_are_theirs(sessions: Seq<SessionView<TransferView>>, i: int)
    requires
        0 <= i < sessions.len(),
    ensures
        directories(sessions).len() == sessions.len(),
        directories(sessions)[i] == sessions[i].item.directory,
{
}

/// What ends and was applied before is over, without an effect: it is taken off, and the
/// directory of a transfer is freed.
pub proof fn law_applied_transfers_are_cleared(
    state: StateView,
    peer: u64,
    id: Seq<char>,
    digest: Seq<u8>,
    at: int,
)
    requires
        1 <= encode_utf8(id).len() <= 256,
        state.completed.contains(id),
    ensures
        has_at(state.transfers, peer, id, at) ==> {
            let outcome = state.on_transfer_end(peer, id);
            &&& same_but_incoming(outcome.state, state)
            &&& outcome.state.images == state.images
            &&& outcome.state.transfers == state.transfers.remove(at)
            &&& outcome.removed == seq![state.transfers[at].item.directory]
            &&& outcome.action == ActionView::Ignore
        },
        none_has(state.transfers, peer, id) ==> state.on_transfer_end(peer, id).state == state
            && state.on_transfer_end(peer, id).removed.len() == 0,
        has_at(state.images, peer, id, at) ==> {
            let outcome = state.on_image_end(peer, id, digest);
            &&& same_but_incoming(outcome.state, state)
            &&& outcome.state.transfers == state.transfers
            &&& outcome.state.images == state.images.remove(at)
            &&& outcome.removed.len() == 0
            &&& outcome.action == ActionView::Ignore
        },
        none_has(state.images, peer, id) ==> state.on_image_end(peer, id, digest).state == state,
{
    if has_at(state.transfers, peer, id, at) {
        law_sessions_are_found(state.transfers, peer, id, at);
    }
    if has_at(state.images, peer, id, at) {
        law_sessions_are_found(state.images, peer, id, at);
    }
    if none_has(state.transfers, peer, id) {
        law_other_sessions_are_not_found(state.transfers, peer, id);
    }
    if none_has(state.images, peer, id) {
        law_other_sessions_are_not_found(state.images, peer, id);
    }
}

} // verus!
