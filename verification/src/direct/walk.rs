//! A capture of the direct mode as a whole: what it holds once all was looked at, and
//! that received files are captured as the ones that were sent.

use vstd::prelude::*;
use vstd::utf8::{decode_utf8, decode_utf8_encode_utf8, encode_utf8, valid_utf8};

use super::capture::{
    child_items, lemma_entered_is_valid, lemma_listed_is_valid, manifest_of, root_items, times_of,
    CaptureView, CapturedFiles, LocalView, PendingView,
};
use super::paths::{joined, law_wire_path_round_trip, portable, portable_all};
use super::receive::{entry_path, root_paths};
use super::wire::{manifest_hash, EntryView};
use crate::capture::{CopiedPath, FileKind, FileMeta};
use crate::order::{is_order, law_listing_is_complete, law_order_depends_on_names_alone, ordered};
use crate::paths::lossy;
use crate::wire::TransferEntryKind;

verus! {

/// What a capture is told.
pub ghost enum CaptureStep {
    /// What was found at the path that was to be looked at.
    Found(FileMeta),
    /// The contents of the directory that was to be listed, and their order.
    Listed { names: Seq<Seq<u8>>, sources: Seq<u64>, order: Seq<int> },
}

/// Whether a capture takes what it is told, without a fault.
pub open spec fn takes(view: CaptureView, step: CaptureStep) -> bool {
    match step {
        CaptureStep::Found(meta) => {
            &&& view.open is None
            &&& view.pending.len() > 0
            &&& view.look_fault() is None
            &&& view.enter_fault(meta.kind) is None
        },
        CaptureStep::Listed { names, sources, order } => {
            &&& view.open is Some
            &&& names.len() == sources.len()
            &&& is_order(names, order)
        },
    }
}

/// The capture after it was told something.
pub open spec fn after_step(view: CaptureView, step: CaptureStep) -> CaptureView {
    match step {
        CaptureStep::Found(meta) => view.entered(meta),
        CaptureStep::Listed { names, sources, order } => view.listed(names, sources, order),
    }
}

/// Whether a capture takes all that it is told in turn.
pub open spec fn takes_all(view: CaptureView, steps: Seq<CaptureStep>) -> bool
    decreases steps.len(),
{
    steps.len() > 0 ==> takes(view, steps[0]) && takes_all(
        after_step(view, steps[0]),
        steps.skip(1),
    )
}

/// The capture after all that it was told.
pub open spec fn after_steps(view: CaptureView, steps: Seq<CaptureStep>) -> CaptureView
    decreases steps.len(),
{
    if steps.len() == 0 {
        view
    } else {
        after_steps(after_step(view, steps[0]), steps.skip(1))
    }
}

/// Whether nothing is left to look at or to list.
pub open spec fn is_done(view: CaptureView) -> bool {
    view.pending.len() == 0 && view.open is None
}

/// The capture of copied paths before it is told anything.
pub open spec fn begun(roots: Seq<CopiedPath>, internal: bool) -> CaptureView {
    CaptureView { pending: root_items(roots), open: None, entries: seq![], internal }
}

/// All that was listed.
pub open spec fn listed_items(view: CaptureView, steps: Seq<CaptureStep>) -> Seq<PendingView>
    decreases steps.len(),
{
    if steps.len() == 0 {
        seq![]
    } else {
        let later = listed_items(after_step(view, steps[0]), steps.skip(1));
        match steps[0] {
            CaptureStep::Found(_) => later,
            CaptureStep::Listed { names, sources, order } => child_items(
                view.open->0,
                names,
                sources,
                order,
            ) + later,
        }
    }
}

/// Whether an item is among the entries: under its path, and if it is a file with the
/// number that its contents come from.
pub open spec fn holds(entries: Seq<LocalView>, item: PendingView) -> bool {
    item.name is Some && exists|j: int|
        0 <= j < entries.len() && (#[trigger] entries[j]).entry.path == joined(item.path()) && (
        entries[j].source is Some ==> entries[j].source == Some(item.source))
}

/// What is in the manifest stays in it, at its place.
proof fn lemma_entries_stay(view: CaptureView, steps: Seq<CaptureStep>)
    ensures
        view.entries.len() <= after_steps(view, steps).entries.len(),
        forall|i: int|
            0 <= i < view.entries.len() ==> #[trigger] after_steps(view, steps).entries[i]
                == view.entries[i],
    decreases steps.len(),
{
    if steps.len() > 0 {
        let next = after_step(view, steps[0]);
        lemma_entries_stay(next, steps.skip(1));
        assert forall|i: int| 0 <= i < view.entries.len() implies #[trigger] after_steps(
            view,
            steps,
        ).entries[i] == view.entries[i] by {
            assert(next.entries[i] == view.entries[i]);
        }
    }
}

/// A capture that is done holds all that was copied and all that was listed below copied
/// directories, each under its path, and nothing else. Every directory that was found
/// was listed at once.
pub proof fn law_capture_holds_all(view: CaptureView, steps: Seq<CaptureStep>)
    requires
        takes_all(view, steps),
        is_done(after_steps(view, steps)),
    ensures
        forall|i: int|
            0 <= i < view.pending.len() ==> holds(
                after_steps(view, steps).entries,
                #[trigger] view.pending[i],
            ),
        forall|i: int|
            0 <= i < listed_items(view, steps).len() ==> holds(
                after_steps(view, steps).entries,
                #[trigger] listed_items(view, steps)[i],
            ),
        after_steps(view, steps).entries.len() == view.entries.len() + view.pending.len()
            + listed_items(view, steps).len(),
        forall|i: int|
            0 <= i < steps.len() && (#[trigger] steps[i] matches CaptureStep::Found(meta)
                && meta.kind == FileKind::Directory) ==> i + 1 < steps.len() && steps[i + 1]
                is Listed,
    decreases steps.len(),
{
    let done = after_steps(view, steps);
    if steps.len() > 0 {
        let step = steps[0];
        let rest = steps.skip(1);
        let next = after_step(view, step);
        law_capture_holds_all(next, rest);
        let later = listed_items(next, rest);
        let all = listed_items(view, steps);
        match step {
            CaptureStep::Found(meta) => {
                let n = view.pending.len() - 1;
                let at = view.entries.len() as int;
                lemma_entries_stay(next, rest);
                assert(done.entries[at] == next.entries[at]);
                assert(holds(done.entries, view.pending[n])) by {
                    assert(done.entries[at].entry.path == joined(view.pending[n].path()));
                }
                assert forall|i: int| 0 <= i < view.pending.len() implies holds(
                    done.entries,
                    #[trigger] view.pending[i],
                ) by {
                    if i < n {
                        assert(next.pending[i] == view.pending[i]);
                    }
                }
                if meta.kind == FileKind::Directory {
                    reveal_with_fuel(takes_all, 2);
                    assert(rest.len() > 0);
                    assert(takes(next, rest[0]));
                    assert(rest[0] == steps[1]);
                }
            },
            CaptureStep::Listed { names, sources, order } => {
                let children = child_items(view.open->0, names, sources, order);
                assert forall|i: int| 0 <= i < view.pending.len() implies holds(
                    done.entries,
                    #[trigger] view.pending[i],
                ) by {
                    assert(next.pending[i] == view.pending[i]);
                }
                assert forall|i: int| 0 <= i < all.len() implies holds(
                    done.entries,
                    #[trigger] all[i],
                ) by {
                    if i < children.len() {
                        assert(next.pending[view.pending.len() + i] == all[i]);
                    } else {
                        assert(all[i] == later[i - children.len()]);
                    }
                }
            },
        }
        assert forall|i: int|
            0 <= i < steps.len() && (#[trigger] steps[i] matches CaptureStep::Found(meta)
                && meta.kind == FileKind::Directory) implies i + 1 < steps.len() && steps[i + 1]
            is Listed by {
            if i > 0 {
                assert(rest[i - 1] == steps[i]);
                assert(rest[i] == steps[i + 1]);
            }
        }
    }
}

/// Whether a name is UTF-8, reads as what it encodes, and is its own portable form.
pub open spec fn plain_name(name: Seq<u8>) -> bool {
    &&& valid_utf8(name)
    &&& lossy(name) == decode_utf8(name)
    &&& portable(lossy(name)) == lossy(name)
}

/// Whether a directory holds each name once, and all names are plain.
pub open spec fn plain_names(names: Seq<Seq<u8>>) -> bool {
    &&& names.no_duplicates()
    &&& forall|i: int| 0 <= i < names.len() ==> plain_name(#[trigger] names[i])
}

/// Whether all directories that were listed hold such names.
pub open spec fn plain_steps(steps: Seq<CaptureStep>) -> bool {
    forall|i: int|
        0 <= i < steps.len() ==> (#[trigger] steps[i] matches CaptureStep::Listed { names, .. }
            ==> plain_names(names))
}

/// Whether what was found is what a manifest says, last changed at this time.
pub open spec fn agrees(meta: FileMeta, entry: EntryView, modified: u128) -> bool {
    &&& meta.kind == match entry.kind {
        TransferEntryKind::File => FileKind::File,
        TransferEntryKind::Directory => FileKind::Directory,
    }
    &&& entry.kind == TransferEntryKind::File ==> meta.size == entry.size
    &&& meta.mode == entry.mode
    &&& meta.modified_nanos == modified
}

/// Whether the manifest has an entry with this name in a directory.
pub open spec fn has_child(
    entries: Seq<EntryView>,
    directory: Seq<Seq<char>>,
    name: Seq<char>,
) -> bool {
    exists|j: int|
        0 <= j < entries.len() && #[trigger] entry_path(entries[j]) == directory.push(name)
}

/// Whether a capture is told what stands on a disk that holds the files of a manifest,
/// each last changed at its time: of every path what the manifest says, and of every
/// directory the names that the manifest has in it, once each.
pub open spec fn told_of(
    view: CaptureView,
    steps: Seq<CaptureStep>,
    entries: Seq<EntryView>,
    times: Seq<u128>,
) -> bool
    decreases steps.len(),
{
    steps.len() > 0 ==> {
        &&& match steps[0] {
            CaptureStep::Found(meta) => forall|j: int|
                0 <= j < entries.len() && #[trigger] entry_path(entries[j])
                    == view.pending.last().path() ==> agrees(meta, entries[j], times[j]),
            CaptureStep::Listed { names, .. } => {
                &&& plain_names(names)
                &&& forall|x: Seq<char>|
                    names.contains(#[trigger] encode_utf8(x)) <==> has_child(
                        entries,
                        view.open->0,
                        x,
                    )
            },
        }
        &&& told_of(after_step(view, steps[0]), steps.skip(1), entries, times)
    }
}

/// Where items lie, and what they are called.
spec fn places_of(items: Seq<PendingView>) -> Seq<(Seq<Seq<char>>, Option<Seq<u8>>)> {
    items.map_values(|item: PendingView| (item.parent, item.name))
}

/// Whether the manifest has an entry with this path.
spec fn there(entries: Seq<LocalView>, path: Seq<Seq<char>>) -> bool {
    exists|j: int| 0 <= j < entries.len() && #[trigger] entry_path(entries[j].entry) == path
}

/// Whether all names that are still to be looked at are plain, and all that there is lies
/// in directories of the manifest.
#[verifier::opaque]
spec fn sound(view: CaptureView) -> bool {
    &&& view.valid()
    &&& forall|i: int|
        0 <= i < view.pending.len() ==> {
            let item = #[trigger] view.pending[i];
            &&& item.name matches Some(name) ==> plain_name(name)
            &&& item.parent.len() == 0 || there(view.entries, item.parent)
        }
    &&& forall|i: int|
        0 <= i < view.entries.len() ==> {
            let path = entry_path((#[trigger] view.entries[i]).entry);
            path.len() <= 1 || there(view.entries, path.drop_last())
        }
    &&& view.open matches Some(path) ==> path.len() > 0 && there(view.entries, path)
}

proof fn lemma_there_stays(entries: Seq<LocalView>, more: LocalView, path: Seq<Seq<char>>)
    requires
        there(entries, path),
    ensures
        there(entries.push(more), path),
{
    let j = choose|j: int|
        0 <= j < entries.len() && #[trigger] entry_path(entries[j].entry) == path;
    assert(entries.push(more)[j] == entries[j]);
    assert(entry_path(entries.push(more)[j].entry) == path);
}

/// Where an item with a plain name goes.
proof fn lemma_path(item: PendingView)
    requires
        item.name is Some,
        plain_name(item.name->0),
        portable_all(item.parent) == item.parent,
    ensures
        item.path() == item.parent.push(lossy(item.name->0)),
        encode_utf8(lossy(item.name->0)) == item.name->0,
{
    let text = lossy(item.name->0);
    assert(portable_all(item.parent.push(text)) == portable_all(item.parent).push(portable(text)));
    decode_utf8_encode_utf8(item.name->0);
}

/// The path of the entry that is made of what is found.
proof fn lemma_entered_path(view: CaptureView, meta: FileMeta)
    requires
        sound(view),
        takes(view, CaptureStep::Found(meta)),
    ensures
        ({
            let item = view.pending.last();
            let new = view.entered(meta).entries.last().entry;
            &&& item.name is Some
            &&& item.path() == item.parent.push(lossy(item.name->0))
            &&& encode_utf8(lossy(item.name->0)) == item.name->0
            &&& entry_path(new) == item.path()
            &&& new.path == joined(item.path())
        }),
{
    reveal(sound);
    let item = view.pending.last();
    assert(view.pending[view.pending.len() - 1] == item);
    lemma_path(item);
    law_wire_path_round_trip(item.parent.push(lossy(item.name->0)));
}

#[verifier::rlimit(30)]
proof fn lemma_sound(view: CaptureView, step: CaptureStep)
    requires
        sound(view),
        takes(view, step),
        step matches CaptureStep::Listed { names, .. } ==> plain_names(names),
    ensures
        sound(after_step(view, step)),
{
    reveal(sound);
    let after = after_step(view, step);
    match step {
        CaptureStep::Found(meta) => {
            lemma_entered_is_valid(view, meta);
            lemma_entered_path(view, meta);
            let item = view.pending.last();
            let new = after.entries.last();
            let n = view.entries.len() as int;
            assert(view.pending[view.pending.len() - 1] == item);
            assert forall|i: int| 0 <= i < after.pending.len() implies {
                let item = #[trigger] after.pending[i];
                &&& item.name matches Some(name) ==> plain_name(name)
                &&& item.parent.len() == 0 || there(after.entries, item.parent)
            } by {
                assert(after.pending[i] == view.pending[i]);
                if view.pending[i].parent.len() > 0 {
                    lemma_there_stays(view.entries, new, view.pending[i].parent);
                }
            }
            assert forall|i: int| 0 <= i < after.entries.len() implies {
                let path = entry_path((#[trigger] after.entries[i]).entry);
                path.len() <= 1 || there(after.entries, path.drop_last())
            } by {
                let path = entry_path(after.entries[i].entry);
                if i < n {
                    assert(after.entries[i] == view.entries[i]);
                    if path.len() > 1 {
                        lemma_there_stays(view.entries, new, path.drop_last());
                    }
                } else {
                    assert(path.drop_last() == item.parent);
                    if path.len() > 1 {
                        lemma_there_stays(view.entries, new, item.parent);
                    }
                }
            }
            assert(entry_path(after.entries[n].entry) == item.path());
        },
        CaptureStep::Listed { names, sources, order } => {
            lemma_listed_is_valid(view, names, sources, order);
            let children = child_items(view.open->0, names, sources, order);
            assert forall|i: int| 0 <= i < after.pending.len() implies {
                let item = #[trigger] after.pending[i];
                &&& item.name matches Some(name) ==> plain_name(name)
                &&& item.parent.len() == 0 || there(after.entries, item.parent)
            } by {
                if i < view.pending.len() {
                    assert(after.pending[i] == view.pending[i]);
                } else {
                    let m = i - view.pending.len();
                    assert(after.pending[i] == children[m]);
                    assert(plain_name(names[order[order.len() - 1 - m]]));
                }
            }
        },
    }
}

proof fn lemma_plain_rest(steps: Seq<CaptureStep>)
    requires
        plain_steps(steps),
        steps.len() > 0,
    ensures
        plain_steps(steps.skip(1)),
{
    let rest = steps.skip(1);
    assert forall|i: int| 0 <= i < rest.len() implies (
    #[trigger] rest[i] matches CaptureStep::Listed { names, .. } ==> plain_names(names)) by {
        assert(rest[i] == steps[i + 1]);
    }
}

/// Once a directory was listed, nothing comes into the manifest below it but what was
/// listed.
#[verifier::rlimit(30)]
proof fn lemma_children(
    view: CaptureView,
    steps: Seq<CaptureStep>,
    directory: Seq<Seq<char>>,
    names: Seq<Seq<u8>>,
    at: int,
)
    requires
        takes_all(view, steps),
        plain_steps(steps),
        sound(view),
        view.open != Some(directory),
        0 <= at < view.entries.len(),
        entry_path(view.entries[at].entry) == directory,
        forall|i: int|
            0 <= i < view.pending.len() && (#[trigger] view.pending[i]).parent == directory
                && view.pending[i].name is Some ==> names.contains(view.pending[i].name->0),
        forall|i: int, x: Seq<char>|
            0 <= i < view.entries.len() && entry_path((#[trigger] view.entries[i]).entry) == (
            #[trigger] directory.push(x)) ==> names.contains(encode_utf8(x)),
    ensures
        forall|i: int, x: Seq<char>|
            0 <= i < after_steps(view, steps).entries.len() && entry_path(
                (#[trigger] after_steps(view, steps).entries[i]).entry,
            ) == (#[trigger] directory.push(x)) ==> names.contains(encode_utf8(x)),
    decreases steps.len(),
{
    reveal(sound);
    if steps.len() > 0 {
        let step = steps[0];
        let next = after_step(view, step);
        let rest = steps.skip(1);
        lemma_plain_rest(steps);
        lemma_sound(view, step);
        match step {
            CaptureStep::Found(meta) => {
                lemma_entered_path(view, meta);
                let n = view.entries.len() as int;
                let item = view.pending.last();
                assert(view.pending[view.pending.len() - 1] == item);
                if item.path() == directory {
                    assert(view.entries[at].entry.path == joined(directory));
                    assert(view.taken(view.next_wire()));
                }
                assert forall|i: int, x: Seq<char>|
                    0 <= i < next.entries.len() && entry_path((#[trigger] next.entries[i]).entry)
                        == (#[trigger] directory.push(x)) implies names.contains(
                    encode_utf8(x),
                ) by {
                    if i < n {
                        assert(next.entries[i] == view.entries[i]);
                    } else {
                        let text = lossy(item.name->0);
                        assert(item.parent.push(text) == directory.push(x));
                        assert(item.parent.push(text).drop_last() == item.parent);
                        assert(directory.push(x).drop_last() == directory);
                        assert(item.parent.push(text).last() == text);
                        assert(directory.push(x).last() == x);
                    }
                }
                assert forall|i: int|
                    0 <= i < next.pending.len() && (#[trigger] next.pending[i]).parent == directory
                        && next.pending[i].name is Some implies names.contains(
                    next.pending[i].name->0,
                ) by {
                    assert(next.pending[i] == view.pending[i]);
                }
                assert(next.entries[at] == view.entries[at]);
            },
            CaptureStep::Listed { names: found, sources, order } => {
                let children = child_items(view.open->0, found, sources, order);
                assert forall|i: int|
                    0 <= i < next.pending.len() && (#[trigger] next.pending[i]).parent == directory
                        && next.pending[i].name is Some implies names.contains(
                    next.pending[i].name->0,
                ) by {
                    if i < view.pending.len() {
                        assert(next.pending[i] == view.pending[i]);
                    } else {
                        assert(next.pending[i] == children[i - view.pending.len()]);
                    }
                }
            },
        }
        lemma_children(next, rest, directory, names, at);
    }
}

/// Whether nothing lies in a directory yet.
spec fn is_empty(view: CaptureView, directory: Seq<Seq<char>>) -> bool {
    &&& forall|i: int|
        0 <= i < view.pending.len() ==> (#[trigger] view.pending[i]).parent != directory
    &&& forall|i: int, x: Seq<char>|
        0 <= i < view.entries.len() ==> entry_path((#[trigger] view.entries[i]).entry) != (
        #[trigger] directory.push(x))
}

/// Nothing lies in a directory that was just found.
proof fn lemma_new_directory_is_empty(view: CaptureView, meta: FileMeta)
    requires
        sound(view),
        takes(view, CaptureStep::Found(meta)),
    ensures
        is_empty(view.entered(meta), view.pending.last().path()),
{
    reveal(sound);
    let next = view.entered(meta);
    let directory = view.pending.last().path();
    lemma_entered_path(view, meta);
    if there(view.entries, directory) {
        let j = choose|j: int|
            0 <= j < view.entries.len() && #[trigger] entry_path(view.entries[j].entry)
                == directory;
        assert(view.entries[j].entry.path == joined(directory));
        assert(view.taken(view.next_wire()));
    }
    assert forall|i: int| 0 <= i < next.pending.len() implies (
    #[trigger] next.pending[i]).parent != directory by {
        assert(next.pending[i] == view.pending[i]);
    }
    assert forall|i: int, x: Seq<char>| 0 <= i < next.entries.len() implies entry_path(
        (#[trigger] next.entries[i]).entry,
    ) != (#[trigger] directory.push(x)) by {
        assert(directory.push(x).len() == directory.len() + 1);
        if i < view.entries.len() {
            assert(next.entries[i] == view.entries[i]);
            assert(directory.push(x).drop_last() == directory);
        }
    }
}

/// A directory was listed with the names that the manifest has in it in the end.
#[verifier::rlimit(30)]
proof fn lemma_listed_names(a: CaptureView, steps: Seq<CaptureStep>, names_b: Seq<Seq<u8>>)
    requires
        takes_all(a, steps),
        is_done(after_steps(a, steps)),
        plain_steps(steps),
        sound(a),
        steps.len() > 0,
        steps[0] is Listed,
        is_empty(a, a.open->0),
        a.entries.len() > 0,
        entry_path(a.entries.last().entry) == a.open->0,
        plain_names(names_b),
        forall|x: Seq<char>|
            names_b.contains(#[trigger] encode_utf8(x)) <==> has_child(
                manifest_of(after_steps(a, steps).entries),
                a.open->0,
                x,
            ),
    ensures
        plain_names(steps[0]->names),
        forall|x: Seq<u8>| #[trigger] steps[0]->names.contains(x) <==> names_b.contains(x),
{
    reveal(sound);
    let done = after_steps(a, steps);
    let entries = manifest_of(done.entries);
    let next = after_step(a, steps[0]);
    let rest = steps.skip(1);
    let directory = a.open->0;
    let names = steps[0]->names;
    let sources = steps[0]->sources;
    let order = steps[0]->order;
    assert(steps[0] == CaptureStep::Listed { names, sources, order });
    let children = child_items(directory, names, sources, order);
    lemma_plain_rest(steps);
    lemma_sound(a, steps[0]);
    law_listing_is_complete(names, order);
    law_capture_holds_all(next, rest);
    let list = ordered(names, order);
    assert(plain_names(names));
    assert forall|i: int|
        0 <= i < next.pending.len() && (#[trigger] next.pending[i]).parent == directory
            && next.pending[i].name is Some implies names.contains(
        next.pending[i].name->0,
    ) by {
        if i < a.pending.len() {
            assert(next.pending[i] == a.pending[i]);
        } else {
            let m = i - a.pending.len();
            assert(next.pending[i] == children[m]);
            assert(names[order[order.len() - 1 - m]] == next.pending[i].name->0);
        }
    }
    lemma_children(next, rest, directory, names, a.entries.len() - 1);
    assert forall|x: Seq<u8>| #[trigger] names.contains(x) <==> names_b.contains(x) by {
        if names.contains(x) {
            let i = choose|i: int| 0 <= i < names.len() && names[i] == x;
            assert(plain_name(names[i]));
            decode_utf8_encode_utf8(x);
            assert(list.contains(x));
            let k = choose|k: int| 0 <= k < list.len() && list[k] == x;
            let item = children[order.len() - 1 - k];
            assert(item.name == Some(x));
            assert(next.pending[a.pending.len() + (order.len() - 1 - k)] == item);
            assert(holds(done.entries, item));
            lemma_path(item);
            let j = choose|j: int|
                0 <= j < done.entries.len() && (
                #[trigger] done.entries[j]).entry.path == joined(item.path());
            law_wire_path_round_trip(directory.push(lossy(x)));
            assert(entry_path(entries[j]) == directory.push(lossy(x)));
            assert(has_child(entries, directory, lossy(x)));
            assert(names_b.contains(encode_utf8(lossy(x))));
        }
        if names_b.contains(x) {
            let i = choose|i: int| 0 <= i < names_b.len() && names_b[i] == x;
            assert(plain_name(names_b[i]));
            decode_utf8_encode_utf8(x);
            assert(names_b.contains(encode_utf8(lossy(x))));
            assert(has_child(entries, directory, lossy(x)));
            let j = choose|j: int|
                0 <= j < entries.len() && #[trigger] entry_path(entries[j])
                    == directory.push(lossy(x));
            assert(entries[j] == done.entries[j].entry);
        }
    }
}

/// Two captures that are at the same point and are told the same come to the same end.
#[verifier::rlimit(40)]
#[verifier::spinoff_prover]
proof fn lemma_lockstep(
    a: CaptureView,
    steps: Seq<CaptureStep>,
    b: CaptureView,
    again: Seq<CaptureStep>,
    times: Seq<u128>,
)
    requires
        takes_all(a, steps),
        is_done(after_steps(a, steps)),
        plain_steps(steps),
        sound(a),
        takes_all(b, again),
        is_done(after_steps(b, again)),
        told_of(b, again, manifest_of(after_steps(a, steps).entries), times),
        places_of(a.pending) == places_of(b.pending),
        a.open == b.open,
        a.open matches Some(directory) ==> is_empty(a, directory) && a.entries.len() > 0
            && entry_path(a.entries.last().entry) == directory,
        manifest_of(a.entries) == manifest_of(b.entries),
        times.len() == after_steps(a, steps).entries.len(),
        times_of(b.entries) == times.take(b.entries.len() as int),
    ensures
        manifest_of(after_steps(b, again).entries) == manifest_of(after_steps(a, steps).entries),
        times_of(after_steps(b, again).entries) == times,
    decreases steps.len(),
{
    let done = after_steps(a, steps);
    let entries = manifest_of(done.entries);
    assert(places_of(a.pending).len() == a.pending.len());
    assert(places_of(b.pending).len() == b.pending.len());
    assert(manifest_of(a.entries).len() == a.entries.len());
    assert(manifest_of(b.entries).len() == b.entries.len());
    lemma_entries_stay(a, steps);
    if steps.len() == 0 {
        assert(again.len() == 0);
        assert(times.take(times.len() as int) == times);
    } else {
        assert(again.len() > 0);
        let next = after_step(a, steps[0]);
        let rest = steps.skip(1);
        let next_b = after_step(b, again[0]);
        let rest_b = again.skip(1);
        lemma_plain_rest(steps);
        lemma_sound(a, steps[0]);
        match steps[0] {
            CaptureStep::Found(meta) => {
                lemma_entered_path(a, meta);
                lemma_entries_stay(next, rest);
                let n = a.entries.len() as int;
                let m = a.pending.len() - 1;
                let path = a.pending.last().path();
                let found = again[0]->Found_0;
                assert(again[0] == CaptureStep::Found(found));
                assert(places_of(a.pending)[m] == places_of(b.pending)[m]);
                assert(b.pending.last().path() == path);
                assert(done.entries[n] == next.entries[n]);
                assert(entries[n] == next.entries[n].entry);
                assert(entry_path(entries[n]) == path);
                assert(agrees(found, entries[n], times[n]));
                assert(next_b.entries[n].entry == next.entries[n].entry);
                assert(manifest_of(next_b.entries) == manifest_of(b.entries).push(
                    next_b.entries[n].entry,
                ));
                assert(manifest_of(next.entries) == manifest_of(a.entries).push(
                    next.entries[n].entry,
                ));
                assert(places_of(next.pending) == places_of(a.pending).drop_last());
                assert(places_of(next_b.pending) == places_of(b.pending).drop_last());
                assert(times_of(next_b.entries) == times_of(b.entries).push(times[n]));
                assert(times.take(n + 1) == times.take(n).push(times[n]));
                lemma_new_directory_is_empty(a, meta);
                lemma_lockstep(next, rest, next_b, rest_b, times);
            },
            CaptureStep::Listed { names, sources, order } => {
                let directory = a.open->0;
                let names_b = again[0]->names;
                let sources_b = again[0]->sources;
                let order_b = again[0]->order;
                assert(again[0] == CaptureStep::Listed {
                    names: names_b,
                    sources: sources_b,
                    order: order_b,
                });
                let children = child_items(directory, names, sources, order);
                let children_b = child_items(directory, names_b, sources_b, order_b);
                let list = ordered(names, order);
                lemma_listed_names(a, steps, names_b);
                law_order_depends_on_names_alone(names, order, names_b, order_b);
                let list_b = ordered(names_b, order_b);
                assert(list.len() == order.len());
                assert(list_b.len() == order_b.len());
                assert(places_of(children) == places_of(children_b)) by {
                    assert forall|i: int| 0 <= i < children.len() implies places_of(children)[i]
                        == places_of(children_b)[i] by {
                        assert(list[order.len() - 1 - i] == list_b[order.len() - 1 - i]);
                    }
                }
                assert(places_of(next.pending) == places_of(a.pending) + places_of(children));
                assert(places_of(next_b.pending) == places_of(b.pending) + places_of(children_b));
                lemma_lockstep(next, rest, next_b, rest_b, times);
            },
        }
    }
}

/// The roots among what is still to be looked at, the next one first.
spec fn roots_left(items: Seq<PendingView>) -> Seq<Seq<Seq<char>>>
    decreases items.len(),
{
    if items.len() == 0 {
        seq![]
    } else {
        let before = roots_left(items.drop_last());
        let item = items.last();
        if item.name is Some && item.parent.len() == 0 {
            seq![seq![lossy(item.name->0)]] + before
        } else {
            before
        }
    }
}

proof fn lemma_no_roots(items: Seq<PendingView>, children: Seq<PendingView>)
    requires
        forall|i: int| 0 <= i < children.len() ==> (#[trigger] children[i]).parent.len() > 0,
    ensures
        roots_left(items + children) == roots_left(items),
    decreases children.len(),
{
    if children.len() == 0 {
        assert(items + children == items);
    } else {
        let fewer = children.drop_last();
        assert((items + children).drop_last() == items + fewer);
        assert((items + children).last() == children[children.len() - 1]);
        assert forall|i: int| 0 <= i < fewer.len() implies (#[trigger] fewer[i]).parent.len()
            > 0 by {
            assert(fewer[i] == children[i]);
        }
        lemma_no_roots(items, fewer);
    }
}

/// The roots of the manifest are the roots that were to be looked at, in their order.
#[verifier::rlimit(30)]
proof fn lemma_roots(view: CaptureView, steps: Seq<CaptureStep>)
    requires
        takes_all(view, steps),
        is_done(after_steps(view, steps)),
        plain_steps(steps),
        sound(view),
    ensures
        root_paths(manifest_of(after_steps(view, steps).entries)) == root_paths(
            manifest_of(view.entries),
        ) + roots_left(view.pending),
    decreases steps.len(),
{
    let before = root_paths(manifest_of(view.entries));
    if steps.len() == 0 {
        assert(before + roots_left(view.pending) == before);
    } else {
        let step = steps[0];
        let next = after_step(view, step);
        let rest = steps.skip(1);
        lemma_plain_rest(steps);
        lemma_sound(view, step);
        lemma_roots(next, rest);
        match step {
            CaptureStep::Found(meta) => {
                lemma_entered_path(view, meta);
                let item = view.pending.last();
                let path = item.path();
                let manifest = manifest_of(next.entries);
                assert(manifest.drop_last() == manifest_of(view.entries));
                assert(manifest.last() == next.entries.last().entry);
                let left = roots_left(next.pending);
                if item.parent.len() == 0 {
                    assert(path == seq![lossy(item.name->0)]);
                }
                assert(before.push(path) + left == before + (seq![path] + left));
            },
            CaptureStep::Listed { names, sources, order } => {
                reveal(sound);
                lemma_no_roots(
                    view.pending,
                    child_items(view.open->0, names, sources, order),
                );
            },
        }
    }
}

/// The name of a copied path as a text.
pub open spec fn root_text(root: CopiedPath) -> Seq<char> {
    lossy(root.name->0@)
}

proof fn lemma_first_roots(roots: Seq<CopiedPath>)
    requires
        forall|i: int|
            0 <= i < roots.len() ==> (#[trigger] roots[i]).name is Some && valid_utf8(
                roots[i].name->0@,
            ),
    ensures
        roots_left(root_items(roots)) == roots.map_values(
            |root: CopiedPath| seq![root_text(root)],
        ),
    decreases roots.len(),
{
    let items = root_items(roots);
    let wanted = roots.map_values(|root: CopiedPath| seq![root_text(root)]);
    if roots.len() == 0 {
        assert(wanted == Seq::<Seq<Seq<char>>>::empty());
    } else {
        let later = roots.skip(1);
        assert forall|i: int| 0 <= i < later.len() implies (#[trigger] later[i]).name is Some
            && valid_utf8(later[i].name->0@) by {
            assert(later[i] == roots[i + 1]);
        }
        assert(items.drop_last() == root_items(later));
        assert(items.last().name == Some(roots[0].name->0@));
        lemma_first_roots(later);
        assert(wanted == seq![seq![root_text(roots[0])]] + later.map_values(
            |root: CopiedPath| seq![root_text(root)],
        ));
    }
}

/// Whether all copied paths have plain names.
pub open spec fn plain_roots(roots: Seq<CopiedPath>) -> bool {
    forall|i: int|
        0 <= i < roots.len() ==> (#[trigger] roots[i]).name is Some && plain_name(roots[i].name->0@)
}

/// Received files are known again. Let copied files be captured, under names that are
/// plain, and sent. Where they were received, let the roots of the transfer be copied and
/// captured from a disk that holds what the manifest says, each file and directory last
/// changed at its time. That gives the manifest and the times again, and so the
/// fingerprint under which the transfer was finished.
pub proof fn law_received_files_are_known_again(
    roots: Seq<CopiedPath>,
    steps: Seq<CaptureStep>,
    received: Seq<CopiedPath>,
    again: Seq<CaptureStep>,
    times: Seq<u128>,
)
    requires
        roots.len() > 0,
        plain_roots(roots),
        takes_all(begun(roots, false), steps),
        is_done(after_steps(begun(roots, false), steps)),
        plain_steps(steps),
        times.len() == after_steps(begun(roots, false), steps).entries.len(),
        plain_roots(received),
        takes_all(begun(received, true), again),
        is_done(after_steps(begun(received, true), again)),
        ({
            let entries = manifest_of(after_steps(begun(roots, false), steps).entries);
            &&& received.len() == root_paths(entries).len()
            &&& forall|i: int|
                0 <= i < received.len() ==> root_text(#[trigger] received[i]) == root_paths(
                    entries,
                )[i][0]
            &&& told_of(begun(received, true), again, entries, times)
        }),
    ensures
        ({
            let entries = manifest_of(after_steps(begun(roots, false), steps).entries);
            let captured = after_steps(begun(received, true), again).entries;
            &&& manifest_of(captured) == entries
            &&& times_of(captured) == times
            &&& manifest_hash(manifest_of(captured), times_of(captured)) == manifest_hash(
                entries,
                times,
            )
        }),
{
    reveal(sound);
    let a = begun(roots, false);
    let b = begun(received, true);
    let done = after_steps(a, steps);
    let entries = manifest_of(done.entries);
    assert forall|i: int| 0 <= i < roots.len() implies (#[trigger] roots[i]).name is Some
        && valid_utf8(roots[i].name->0@) by {
        assert(plain_name(roots[i].name->0@));
    }
    assert(sound(a)) by {
        assert forall|i: int| 0 <= i < a.pending.len() implies {
            let item = #[trigger] a.pending[i];
            &&& item.name matches Some(name) ==> plain_name(name)
            &&& item.parent.len() == 0
            &&& portable_all(item.parent) == item.parent
        } by {
            let root = roots[roots.len() - 1 - i];
            assert(plain_name(root.name->0@));
            assert(portable_all(a.pending[i].parent) == a.pending[i].parent);
        }
    }
    lemma_first_roots(roots);
    lemma_roots(a, steps);
    let tops = roots.map_values(|root: CopiedPath| seq![root_text(root)]);
    assert(root_paths(manifest_of(a.entries)) + tops == tops);
    assert(root_paths(entries) == tops);
    assert(places_of(a.pending) == places_of(b.pending)) by {
        assert forall|i: int| 0 <= i < roots.len() implies places_of(a.pending)[i] == places_of(
            b.pending,
        )[i] by {
            let k = roots.len() - 1 - i;
            assert(tops[k] == seq![root_text(roots[k])]);
            assert(root_text(received[k]) == tops[k][0]);
            let x = roots[k].name->0@;
            let y = received[k].name->0@;
            assert(plain_name(x) && plain_name(y));
            decode_utf8_encode_utf8(x);
            decode_utf8_encode_utf8(y);
            assert(x == y);
        }
    }
    assert(manifest_of(a.entries) == manifest_of(b.entries));
    assert(times_of(b.entries) == times.take(0));
    lemma_lockstep(a, steps, b, again, times);
}

/// Captures of the same files, with the same sizes, permissions and times, are known by
/// the same fingerprint.
pub proof fn law_equal_captures_are_known_alike(a: CapturedFiles, b: CapturedFiles)
    requires
        a.wf(),
        b.wf(),
        a.manifest() == b.manifest(),
        a.times() == b.times(),
    ensures
        a.identity == b.identity,
{
}

} // verus!
