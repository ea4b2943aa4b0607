//! What one device sends in the direct mode, the session of another takes.

use vstd::prelude::*;

use super::capture::manifest_of;
use super::receive::{manifest_fault, started, TransferView};
use super::send::{last_word, next_file, SendView};
use super::state::{ActionView, DirectState, EVERYONE};
use super::wire::{
    file_numbers, lemma_file_numbers, transfer_directory, EntryView, MessageView,
};
use crate::progress::FileView;
use crate::send::{readable, whole, SendOutcome};
use crate::sessions::{lemma_place, lemma_place_is, lemma_without, place};
use crate::wire::{TransferEntryKind, CHUNK_SIZE};

verus! {

/// The messages that send the file at the position, read in pieces.
pub open spec fn file_messages(view: SendView, pieces: Seq<Seq<u8>>) -> Seq<MessageView>
    decreases pieces.len(),
{
    if pieces.len() == 0 {
        seq![view.end_message()]
    } else {
        seq![view.chunk_message(pieces[0])] + file_messages(
            view.with_chunk(pieces[0]),
            pieces.skip(1),
        )
    }
}

/// The messages that send the files from the position on, each read in pieces.
pub open spec fn transfer_messages(view: SendView, contents: Seq<Seq<Seq<u8>>>) -> Seq<MessageView>
    decreases contents.len(),
{
    if contents.len() == 0 {
        seq![]
    } else {
        let at = SendView { position: next_file(view.entries, view.position), ..view };
        file_messages(at, contents[0]) + transfer_messages(at.with_end(), contents.skip(1))
    }
}

/// The session after messages.
pub open spec fn after_all(state: DirectState, messages: Seq<MessageView>) -> DirectState
    decreases messages.len(),
{
    if messages.len() == 0 {
        state
    } else {
        after_all(state.on_message(messages[0]).0, messages.skip(1))
    }
}

/// A transfer with one file there whole.
spec fn with_file(view: TransferView, index: int, bytes: Seq<u8>) -> TransferView {
    TransferView {
        files: view.files.update(
            index,
            FileView { received: bytes, finished: true, ..view.files[index] },
        ),
        ..view
    }
}

/// Whether nothing has come in of a file that has the size of these pieces.
spec fn awaits(file: FileView, pieces: Seq<Seq<u8>>) -> bool {
    &&& file.received.len() == 0
    &&& !file.finished
    &&& file.expected == whole(pieces).len()
    &&& file.expected <= u64::MAX
}

/// Another stage of a transfer stands where the transfer stood.
proof fn lemma_stage(state: DirectState, id: Seq<char>, item: TransferView, more: TransferView)
    requires
        state.has(id),
    ensures
        state.with_transfer(id, item).has(id),
        state.with_transfer(id, item).transfer(id).item == item,
        state.with_transfer(id, item).with_transfer(id, more) == state.with_transfer(id, more),
        state.with_transfer(id, item).without_transfer(id) == state.without_transfer(id),
        state.with_transfer(id, state.transfer(id).item) == state,
{
    let sessions = state.transfers;
    let at = place(sessions, EVERYONE, id);
    let after = state.with_transfer(id, item).transfers;
    lemma_place(sessions, EVERYONE, id);
    assert forall|i: int| 0 <= i < at implies !((#[trigger] after[i]).peer == EVERYONE && after[i].id
        == id) by {
        assert(after[i] == sessions[i]);
    }
    lemma_place_is(after, EVERYONE, id, at);
    assert(state.with_transfer(id, item).with_transfer(id, more).transfers == state.with_transfer(
        id,
        more,
    ).transfers);
    assert(after.remove(at) == sessions.remove(at));
    assert(state.with_transfer(id, state.transfer(id).item).transfers == sessions);
}

/// The messages of one file fill it.
proof fn lemma_file_arrives(
    state: DirectState,
    sender: SendView,
    pieces: Seq<Seq<u8>>,
    rest: Seq<MessageView>,
)
    requires
        state.has(sender.id),
        readable(pieces),
        sender.file_index < state.transfer(sender.id).item.files.len() <= u32::MAX,
        ({
            let file = state.transfer(sender.id).item.files[sender.file_index as int];
            &&& file.received == sender.sent
            &&& !file.finished
            &&& file.expected == sender.sent.len() + whole(pieces).len()
            &&& file.expected <= u64::MAX
        }),
    ensures
        after_all(state, file_messages(sender, pieces) + rest) == after_all(
            state.with_transfer(
                sender.id,
                with_file(
                    state.transfer(sender.id).item,
                    sender.file_index as int,
                    sender.sent + whole(pieces),
                ),
            ),
            rest,
        ),
    decreases pieces.len(),
{
    let id = sender.id;
    let view = state.transfer(id).item;
    let index = sender.file_index as int;
    let messages = file_messages(sender, pieces) + rest;
    let full = with_file(view, index, sender.sent + whole(pieces));
    if pieces.len() == 0 {
        assert(messages[0] == sender.end_message());
        assert(messages.skip(1) == rest);
        assert(sender.sent + whole(pieces) == sender.sent);
        assert(view.with_end(index as u32).files == full.files);
        assert(view.with_end(index as u32) == full);
    } else {
        let piece = pieces[0];
        let later = pieces.skip(1);
        assert(messages[0] == sender.chunk_message(piece));
        assert(messages.skip(1) == file_messages(sender.with_chunk(piece), later) + rest);
        assert forall|i: int| 0 <= i < later.len() implies 0 < (#[trigger] later[i]).len()
            <= CHUNK_SIZE by {
            assert(later[i] == pieces[i + 1]);
        }
        let next = view.with_chunk(index as u32, piece);
        let reached = state.with_transfer(id, next);
        assert(state.on_message(messages[0]).0 == reached);
        lemma_stage(state, id, next, full);
        lemma_file_arrives(reached, sender.with_chunk(piece), later, rest);
        assert(sender.with_chunk(piece).sent + whole(later) == sender.sent + whole(pieces));
        assert(with_file(next, index, sender.sent + whole(pieces)).files == full.files);
        assert(with_file(next, index, sender.sent + whole(pieces)) == full);
    }
}

/// The messages of all files fill the transfer.
proof fn lemma_files_arrive(state: DirectState, sender: SendView, contents: Seq<Seq<Seq<u8>>>)
    requires
        state.has(sender.id),
        sender.sent.len() == 0,
        state.transfer(sender.id).item.files.len() <= u32::MAX,
        sender.file_index + contents.len() == state.transfer(sender.id).item.files.len(),
        forall|k: int| 0 <= k < contents.len() ==> readable(#[trigger] contents[k]),
        forall|k: int|
            0 <= k < contents.len() ==> awaits(
                state.transfer(sender.id).item.files[sender.file_index + k],
                #[trigger] contents[k],
            ),
    ensures
        ({
            let id = sender.id;
            let before = state.transfer(id).item;
            let after = after_all(state, transfer_messages(sender, contents));
            let item = after.transfer(id).item;
            &&& after.has(id)
            &&& after == state.with_transfer(id, item)
            &&& item.directory == before.directory
            &&& item.entries == before.entries
            &&& item.files.len() == before.files.len()
            &&& forall|k: int|
                0 <= k < sender.file_index ==> #[trigger] item.files[k] == before.files[k]
            &&& forall|k: int|
                sender.file_index <= k < item.files.len() ==> (#[trigger] item.files[k]).finished
                    && item.files[k].received == whole(contents[k - sender.file_index])
        }),
    decreases contents.len(),
{
    let id = sender.id;
    let view = state.transfer(id).item;
    lemma_stage(state, id, view, view);
    if contents.len() > 0 {
        let index = sender.file_index as int;
        let at = SendView { position: next_file(sender.entries, sender.position), ..sender };
        let later = contents.skip(1);
        let rest = transfer_messages(at.with_end(), later);
        assert(readable(contents[0]));
        assert(awaits(view.files[sender.file_index + 0int], contents[0]));
        assert(view.files[index].received == sender.sent);
        lemma_file_arrives(state, at, contents[0], rest);
        assert(at.sent + whole(contents[0]) == whole(contents[0]));
        let next = with_file(view, index, whole(contents[0]));
        let reached = state.with_transfer(id, next);
        lemma_stage(state, id, next, next);
        assert forall|k: int| 0 <= k < later.len() implies readable(#[trigger] later[k]) by {
            assert(later[k] == contents[k + 1]);
        }
        let onward = at.with_end();
        assert(onward.file_index == index + 1);
        assert forall|k: int| 0 <= k < later.len() implies awaits(
            reached.transfer(id).item.files[onward.file_index + k],
            #[trigger] later[k],
        ) by {
            assert(later[k] == contents[k + 1]);
            assert(next.files[onward.file_index + k] == view.files[sender.file_index + (k + 1)]);
        }
        lemma_files_arrive(reached, onward, later);
        let after = after_all(reached, rest);
        assert(after == after_all(state, transfer_messages(sender, contents)));
        let item = after.transfer(id).item;
        lemma_stage(state, id, next, item);
        assert forall|k: int| index <= k < item.files.len() implies (
        #[trigger] item.files[k]).finished && item.files[k].received == whole(
            contents[k - index],
        ) by {
            if k == index {
                assert(item.files[k] == next.files[k]);
            } else {
                assert(later[k - (index + 1)] == contents[k - index]);
            }
        }
        assert forall|k: int| 0 <= k < index implies #[trigger] item.files[k] == view.files[k] by {
            assert(item.files[k] == next.files[k]);
        }
    }
}

/// Files that one device sends come whole to the session of another that has not seen
/// the transfer: it begins it, takes every chunk and every end of a file, and at the
/// end of the transfer finishes it with the bytes that were read.
pub proof fn law_files_are_delivered(
    state: DirectState,
    sender: SendView,
    fingerprint: u64,
    contents: Seq<Seq<Seq<u8>>>,
)
    requires
        state.valid(),
        !state.seen.contains(sender.id),
        sender.position == 0,
        sender.file_index == 0,
        sender.sent.len() == 0,
        manifest_fault(sender.id, manifest_of(sender.entries)) is None,
        contents.len() == file_numbers(manifest_of(sender.entries)).len(),
        forall|k: int|
            0 <= k < contents.len() ==> readable(#[trigger] contents[k]) && whole(contents[k]).len()
                == manifest_of(sender.entries)[file_numbers(manifest_of(sender.entries))[k]].size,
    ensures
        ({
            let id = sender.id;
            let entries = manifest_of(sender.entries);
            let begun = state.on_message(MessageView::TransferStart { id, fingerprint, entries });
            let filled = after_all(begun.0, transfer_messages(sender, contents));
            let ended = filled.on_message(MessageView::TransferEnd { id });
            &&& begun.1 == ActionView::Begin
            &&& ended.0 == state.with_seen(id).without_transfer(id)
            &&& ended.1 matches ActionView::Finish { transfer } && {
                &&& transfer.directory == transfer_directory(id)
                &&& transfer.entries == entries
                &&& transfer.complete()
                &&& forall|k: int|
                    0 <= k < contents.len() ==> (#[trigger] transfer.files[k]).received == whole(
                        contents[k],
                    )
            }
        }),
{
    let id = sender.id;
    let entries = manifest_of(sender.entries);
    let rest = state.with_seen(id).without_transfer(id);
    let begun = state.on_message(MessageView::TransferStart { id, fingerprint, entries }).0;
    let at = rest.transfers.len() as int;
    let item = started(transfer_directory(id), entries);
    lemma_file_numbers(entries);
    lemma_without(state.transfers, EVERYONE, id);
    assert(begun.transfers.take(at) == rest.transfers);
    lemma_place(rest.transfers, EVERYONE, id);
    lemma_place_is(begun.transfers, EVERYONE, id, at);
    assert(begun.transfer(id).item == item);
    assert forall|k: int| 0 <= k < contents.len() implies awaits(
        begun.transfer(id).item.files[sender.file_index + k],
        #[trigger] contents[k],
    ) by {
        assert(readable(contents[k]));
    }
    lemma_files_arrive(begun, sender, contents);
    let filled = after_all(begun, transfer_messages(sender, contents));
    let last = filled.transfer(id).item;
    lemma_stage(begun, id, last, last);
    assert(begun.transfers.remove(at) == rest.transfers);
    assert(begun.without_transfer(id) == rest);
}

/// What a sender does next.
pub ghost enum SendStep {
    /// Go on to the next file.
    Next,
    /// Send what was read next.
    Chunk(Seq<u8>),
    /// End the file.
    End,
}

/// Whether a sender can do this without a fault.
pub open spec fn can(view: SendView, step: SendStep) -> bool {
    match step {
        SendStep::Next => view.sent.len() == 0,
        SendStep::Chunk(bytes) => {
            &&& view.at_file()
            &&& 0 < bytes.len() <= CHUNK_SIZE
            &&& view.sent.len() + bytes.len() <= view.local().entry.size
        },
        SendStep::End => view.at_file() && view.sent.len() == view.local().entry.size,
    }
}

/// The sender afterwards.
pub open spec fn after_step(view: SendView, step: SendStep) -> SendView {
    match step {
        SendStep::Next => view.moved(),
        SendStep::Chunk(bytes) => view.with_chunk(bytes),
        SendStep::End => view.with_end(),
    }
}

/// Whether a sender can do all this in turn, and then all files are done with.
pub open spec fn completes(view: SendView, steps: Seq<SendStep>) -> bool
    decreases steps.len(),
{
    if steps.len() == 0 {
        view.position == view.entries.len()
    } else {
        can(view, steps[0]) && completes(after_step(view, steps[0]), steps.skip(1))
    }
}

/// The messages that come of it.
pub open spec fn run_messages(view: SendView, steps: Seq<SendStep>) -> Seq<MessageView>
    decreases steps.len(),
{
    if steps.len() == 0 {
        seq![]
    } else {
        let later = run_messages(after_step(view, steps[0]), steps.skip(1));
        match steps[0] {
            SendStep::Next => later,
            SendStep::Chunk(bytes) => seq![view.chunk_message(bytes)] + later,
            SendStep::End => seq![view.end_message()] + later,
        }
    }
}

/// What was read of each file, in pieces.
pub open spec fn run_contents(steps: Seq<SendStep>) -> Seq<Seq<Seq<u8>>>
    decreases steps.len(),
{
    if steps.len() == 0 {
        seq![]
    } else {
        let later = run_contents(steps.skip(1));
        match steps[0] {
            SendStep::Next => later,
            SendStep::Chunk(bytes) => if later.len() == 0 {
                later
            } else {
                later.update(0, seq![bytes] + later[0])
            },
            SendStep::End => seq![Seq::<Seq<u8>>::empty()] + later,
        }
    }
}

/// The files of a part of a manifest come first among all its files.
proof fn lemma_numbers_begin(entries: Seq<EntryView>, n: int)
    requires
        0 <= n <= entries.len(),
    ensures
        file_numbers(entries.take(n)).is_prefix_of(file_numbers(entries)),
    decreases entries.len(),
{
    if n == entries.len() {
        assert(entries.take(n) == entries);
    } else {
        let before = entries.drop_last();
        lemma_numbers_begin(before, n);
        assert(before.take(n) == entries.take(n));
        assert(file_numbers(before).is_prefix_of(file_numbers(entries)));
    }
}

proof fn lemma_number_at(entries: Seq<EntryView>, n: int)
    requires
        0 <= n < entries.len(),
    ensures
        entries[n].kind == TransferEntryKind::File ==> file_numbers(entries.take(n + 1))
            == file_numbers(entries.take(n)).push(n) && file_numbers(entries.take(n)).len()
            < file_numbers(entries).len() && file_numbers(
            entries,
        )[file_numbers(entries.take(n)).len() as int] == n,
        entries[n].kind == TransferEntryKind::Directory ==> file_numbers(entries.take(n + 1))
            == file_numbers(entries.take(n)),
{
    let part = entries.take(n + 1);
    assert(part.drop_last() == entries.take(n));
    lemma_numbers_begin(entries, n + 1);
    if entries[n].kind == TransferEntryKind::File {
        let at = file_numbers(entries.take(n)).len() as int;
        assert(part.last() == entries[n]);
        assert(file_numbers(part)[at] == n);
        assert(file_numbers(entries)[at] == file_numbers(part)[at]);
    }
}

proof fn lemma_moved(view: SendView)
    requires
        view.valid(),
        view.sent.len() == 0,
    ensures
        view.moved().valid(),
        view.moved().at_file() || view.moved().position == view.entries.len(),
        view.at_file() ==> view.moved() == view,
    decreases view.entries.len() - view.position,
{
    let manifest = manifest_of(view.entries);
    if view.position < view.entries.len() && !view.at_file() {
        let next = SendView { position: view.position + 1, ..view };
        assert(manifest[view.position as int] == view.entries[view.position as int].entry);
        lemma_number_at(manifest, view.position as int);
        lemma_moved(next);
        assert(next.moved() == view.moved());
    }
}

proof fn lemma_run(view: SendView, steps: Seq<SendStep>)
    requires
        view.valid(),
        completes(view, steps),
    ensures
        ({
            let contents = run_contents(steps);
            let manifest = manifest_of(view.entries);
            let numbers = file_numbers(manifest);
            &&& view.file_index + contents.len() == numbers.len()
            &&& forall|k: int| 0 <= k < contents.len() ==> readable(#[trigger] contents[k])
            &&& forall|k: int|
                0 <= k < contents.len() && !(k == 0 && view.at_file()) ==> whole(
                    #[trigger] contents[k],
                ).len() == manifest[numbers[view.file_index + k]].size
            &&& if view.at_file() {
                &&& contents.len() > 0
                &&& view.sent.len() + whole(contents[0]).len() == view.local().entry.size
                &&& run_messages(view, steps) == file_messages(view, contents[0])
                    + transfer_messages(view.with_end(), contents.skip(1))
            } else {
                run_messages(view, steps) == transfer_messages(view, contents)
            }
        }),
    decreases steps.len(),
{
    let contents = run_contents(steps);
    let manifest = manifest_of(view.entries);
    let numbers = file_numbers(manifest);
    if steps.len() == 0 {
        assert(manifest.take(manifest.len() as int) == manifest);
    } else {
        let rest = steps.skip(1);
        let next = after_step(view, steps[0]);
        let later = run_contents(rest);
        if view.at_file() {
            assert(manifest[view.position as int] == view.local().entry);
            lemma_number_at(manifest, view.position as int);
        }
        match steps[0] {
            SendStep::Next => {
                lemma_moved(view);
                lemma_run(next, rest);
                if !view.at_file() {
                    if next.at_file() {
                        let n = next.position as int;
                        assert(manifest[n] == next.local().entry);
                        lemma_number_at(manifest, n);
                    } else {
                        assert(next.moved() == next);
                        lemma_at_end(view, later);
                    }
                }
            },
            SendStep::Chunk(bytes) => {
                lemma_run(next, rest);
                let pieces = seq![bytes] + later[0];
                assert(contents[0] == pieces);
                assert(pieces.skip(1) == later[0]);
                assert(contents.skip(1) == later.skip(1));
                assert(readable(later[0]));
                assert(readable(pieces)) by {
                    assert forall|i: int| 0 <= i < pieces.len() implies 0 < (
                    #[trigger] pieces[i]).len() <= CHUNK_SIZE by {
                        if i > 0 {
                            assert(pieces[i] == later[0][i - 1]);
                        }
                    }
                }
                assert forall|k: int| 0 <= k < contents.len() implies readable(
                    #[trigger] contents[k],
                ) by {
                    if k > 0 {
                        assert(contents[k] == later[k]);
                    }
                }
                assert forall|k: int| 0 < k < contents.len() implies whole(
                    #[trigger] contents[k],
                ).len() == manifest[numbers[view.file_index + k]].size by {
                    assert(contents[k] == later[k]);
                }
                assert(next.with_end() == view.with_end());
                assert(run_messages(view, steps) == file_messages(view, pieces)
                    + transfer_messages(view.with_end(), contents.skip(1)));
            },
            SendStep::End => {
                let n = view.position as int;
                lemma_run(next, rest);
                assert(contents.skip(1) == later);
                assert(contents[0].len() == 0);
                assert(whole(contents[0]).len() == 0);
                assert forall|k: int| 0 <= k < contents.len() implies readable(
                    #[trigger] contents[k],
                ) by {
                    if k > 0 {
                        assert(contents[k] == later[k - 1]);
                    }
                }
                if next.at_file() {
                    lemma_moved(next);
                    assert(manifest[next.position as int] == next.local().entry);
                    lemma_number_at(manifest, next.position as int);
                    assert(transfer_messages(next, later) == file_messages(next, later[0])
                        + transfer_messages(next.with_end(), later.skip(1)));
                }
                assert(run_messages(view, steps) == seq![view.end_message()]
                    + transfer_messages(next, later));
                assert forall|k: int| 0 < k < contents.len() implies whole(
                    #[trigger] contents[k],
                ).len() == manifest[numbers[view.file_index + k]].size by {
                    assert(contents[k] == later[k - 1]);
                    assert(next.file_index + (k - 1) == view.file_index + k);
                }
            },
        }
    }
}

/// Where no file is left it makes no difference whether the sender went on.
proof fn lemma_at_end(view: SendView, contents: Seq<Seq<Seq<u8>>>)
    requires
        view.moved().position == view.entries.len(),
    ensures
        transfer_messages(view.moved(), contents) == transfer_messages(view, contents),
{
    if contents.len() > 0 {
        assert(view.moved().moved() == view.moved());
    }
}

/// Whatever a sender does until all files are done with, what it sends are the messages of
/// the transfer, in their order: every file of the manifest, in the pieces in which it
/// was read, as long as the manifest says.
pub proof fn law_run_sends_the_transfer(view: SendView, steps: Seq<SendStep>)
    requires
        view.position == 0,
        view.file_index == 0,
        view.sent.len() == 0,
        completes(view, steps),
    ensures
        ({
            let contents = run_contents(steps);
            let manifest = manifest_of(view.entries);
            &&& run_messages(view, steps) == transfer_messages(view, contents)
            &&& contents.len() == file_numbers(manifest).len()
            &&& forall|k: int|
                0 <= k < contents.len() ==> readable(#[trigger] contents[k]) && whole(
                    contents[k],
                ).len() == manifest[file_numbers(manifest)[k]].size
        }),
{
    let manifest = manifest_of(view.entries);
    assert(file_numbers(manifest.take(0)).len() == 0);
    lemma_run(view, steps);
    if view.at_file() {
        lemma_moved(view);
        assert(manifest[0] == view.local().entry);
        lemma_number_at(manifest, 0);
    }
}

/// Whether a sender can do all this in turn.
pub open spec fn can_all(view: SendView, steps: Seq<SendStep>) -> bool
    decreases steps.len(),
{
    steps.len() > 0 ==> can(view, steps[0]) && can_all(
        after_step(view, steps[0]),
        steps.skip(1),
    )
}

/// The messages of a transfer as far as it came: its start, what the sender gave, and its
/// end once all files are done with.
pub open spec fn given(view: SendView, start: MessageView, steps: Seq<SendStep>) -> Seq<
    MessageView,
> {
    let begun = seq![start] + run_messages(view, steps);
    if completes(view, steps) {
        begun.push(MessageView::TransferEnd { id: view.id })
    } else {
        begun
    }
}

/// How a transfer ended of whose messages these many went out: it was sent if it came to
/// its end and all went out.
pub open spec fn outcome_of(
    view: SendView,
    start: MessageView,
    steps: Seq<SendStep>,
    count: nat,
) -> SendOutcome {
    if completes(view, steps) && count == given(view, start, steps).len() {
        SendOutcome::Sent
    } else {
        SendOutcome::Failed
    }
}

/// All that is sent of a transfer of whose messages these many went out.
pub open spec fn sent_of(
    view: SendView,
    start: MessageView,
    steps: Seq<SendStep>,
    count: nat,
) -> Seq<MessageView> {
    let out = given(view, start, steps).take(count as int);
    match last_word(view.id, outcome_of(view, start, steps, count)) {
        Some(word) => out.push(word),
        None => out,
    }
}

proof fn lemma_run_is_open(view: SendView, steps: Seq<SendStep>)
    ensures
        forall|i: int|
            0 <= i < run_messages(view, steps).len() ==> {
                let message = #[trigger] run_messages(view, steps)[i];
                message is TransferChunk || message is TransferFileEnd
            },
    decreases steps.len(),
{
    if steps.len() > 0 {
        let next = after_step(view, steps[0]);
        let later = run_messages(next, steps.skip(1));
        lemma_run_is_open(next, steps.skip(1));
        let all = run_messages(view, steps);
        assert forall|i: int| 0 <= i < all.len() implies (#[trigger] all[i]) is TransferChunk
            || all[i] is TransferFileEnd by {
            if steps[0] is Next {
                assert(all[i] == later[i]);
            } else if i > 0 {
                assert(all[i] == later[i - 1]);
            }
        }
    }
}

/// A transfer is closed once: however far a sender came and however many of its messages
/// went out, the last that is sent is either the end of the transfer, where all of it
/// went out, or the message that takes it back, where not; and none before it is one of
/// the two.
pub proof fn law_transfer_is_closed_once(
    view: SendView,
    start: MessageView,
    steps: Seq<SendStep>,
    count: nat,
)
    requires
        can_all(view, steps),
        start is TransferStart,
        count <= given(view, start, steps).len(),
    ensures
        ({
            let sent = sent_of(view, start, steps, count);
            let outcome = outcome_of(view, start, steps, count);
            &&& sent.len() > 0
            &&& forall|i: int|
                0 <= i < sent.len() - 1 ==> !((#[trigger] sent[i]) is TransferEnd || sent[i]
                    is TransferAbort)
            &&& sent.last() == match outcome {
                SendOutcome::Sent => MessageView::TransferEnd { id: view.id },
                SendOutcome::Failed => MessageView::TransferAbort { id: view.id },
            }
        }),
{
    lemma_run_is_open(view, steps);
    let run = run_messages(view, steps);
    let all = given(view, start, steps);
    let sent = sent_of(view, start, steps, count);
    assert forall|i: int| 0 <= i < sent.len() - 1 implies !((#[trigger] sent[i]) is TransferEnd
        || sent[i] is TransferAbort) by {
        assert(sent[i] == all[i]);
        if i > 0 {
            assert(all[i] == run[i - 1]);
        }
    }
}

/// A transfer that is taken back is no longer under way.
pub proof fn law_abort_ends_the_transfer(state: DirectState, id: Seq<char>)
    requires
        state.valid(),
    ensures
        !state.on_message(MessageView::TransferAbort { id }).0.has(id),
{
    lemma_without(state.transfers, EVERYONE, id);
}

} // verus!
