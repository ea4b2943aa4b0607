//! A capture as a whole: what it holds once all was looked at, and that received files
//! are captured as the ones that were sent.

use vstd::prelude::*;

use crate::capture::{
    child_items, is_directory_path, is_parented, lemma_entered_is_valid, lemma_listed_is_valid,
    manifest_of, root_items, times_of, CaptureView, CapturedFiles, FileKind, FileMeta, LocalView,
};
use crate::fingerprint::manifest_hash;
use crate::manifest::{entry_path, lemma_entry_path_valid, root_paths};
use crate::order::{is_order, law_listing_is_complete, law_order_depends_on_names_alone, ordered};
use crate::paths::{joined, law_wire_path_round_trip, portable, portable_all};
use crate::wire::{EntryView, TransferEntryKind};

verus! {

/// What a capture is told.
pub ghost enum CaptureStep {
    /// What was found at the path that was to be looked at.
    Found(FileMeta),
    /// The contents of the directory that was to be listed, and their order.
    Listed { names: Seq<Seq<u8>>, sources: Seq<u64>, order: Seq<int> },
}

/// Whether a capture takes what it is told, without a fault.
pub open spec fn takes(view: CaptureView, step: CaptureStep) -> bool {
    match step {
        CaptureStep::Found(meta) => {
            &&& view.open is None
            &&& view.pending.len() > 0
            &&& view.look_fault() is None
            &&& view.enter_fault(meta.kind) is None
        },
        CaptureStep::Listed { names, sources, order } => {
            &&& view.open is Some
            &&& names.len() == sources.len()
            &&& is_order(names, order)
        },
    }
}

/// The capture after it was told something.
pub open spec fn after_step(view: CaptureView, step: CaptureStep) -> CaptureView {
    match step {
        CaptureStep::Found(meta) => view.entered(meta),
        CaptureStep::Listed { names, sources, order } => view.listed(names, sources, order),
    }
}

/// Whether a capture takes all that it is told in turn.
pub open spec fn takes_all(view: CaptureView, steps: Seq<CaptureStep>) -> bool
    decreases steps.len(),
{
    steps.len() > 0 ==> takes(view, steps[0]) && takes_all(
        after_step(view, steps[0]),
        steps.skip(1),
    )
}

/// The capture after all that it was told.
pub open spec fn after_steps(view: CaptureView, steps: Seq<CaptureStep>) -> CaptureView
    decreases steps.len(),
{
    if steps.len() == 0 {
        view
    } else {
        after_steps(after_step(view, steps[0]), steps.skip(1))
    }
}

/// Whether nothing is left to look at or to list.
pub open spec fn is_done(view: CaptureView) -> bool {
    view.pending.len() == 0 && view.open is None
}

/// The capture of copied paths before it is told anything.
pub open spec fn begun(roots: Seq<(u64, Option<Seq<u8>>)>, internal: bool) -> CaptureView {
    CaptureView { pending: root_items(roots), open: None, entries: seq![], internal }
}

/// All that was listed: the number of each path, and where it goes.
pub open spec fn listed_items(view: CaptureView, steps: Seq<CaptureStep>) -> Seq<
    (u64, Option<Seq<Seq<u8>>>),
>
    decreases steps.len(),
{
    if steps.len() == 0 {
        seq![]
    } else {
        let later = listed_items(after_step(view, steps[0]), steps.skip(1));
        match steps[0] {
            CaptureStep::Found(_) => later,
            CaptureStep::Listed { names, sources, order } => child_items(
                view.open->0,
                names,
                sources,
                order,
            ) + later,
        }
    }
}

/// Whether an item is among the entries: under its path, and if it is a file with the
/// number that its contents come from.
pub open spec fn holds(entries: Seq<LocalView>, item: (u64, Option<Seq<Seq<u8>>>)) -> bool {
    item.1 matches Some(path) && exists|j: int|
        0 <= j < entries.len() && (#[trigger] entries[j]).entry.path == joined(portable_all(path))
            && (entries[j].source is Some ==> entries[j].source == Some(item.0))
}

/// What is in the manifest stays in it, at its place.
proof fn lemma_entries_stay(view: CaptureView, steps: Seq<CaptureStep>)
    ensures
        view.entries.len() <= after_steps(view, steps).entries.len(),
        forall|i: int|
            0 <= i < view.entries.len() ==> #[trigger] after_steps(view, steps).entries[i]
                == view.entries[i],
    decreases steps.len(),
{
    if steps.len() > 0 {
        let next = after_step(view, steps[0]);
        lemma_entries_stay(next, steps.skip(1));
        assert forall|i: int| 0 <= i < view.entries.len() implies #[trigger] after_steps(
            view,
            steps,
        ).entries[i] == view.entries[i] by {
            assert(next.entries[i] == view.entries[i]);
        }
    }
}

/// A capture that is done holds all that was copied and all that was listed below copied
/// directories, each under its path, and nothing else. Every directory that was found
/// was listed at once.
pub proof fn law_capture_holds_all(view: CaptureView, steps: Seq<CaptureStep>)
    requires
        takes_all(view, steps),
        is_done(after_steps(view, steps)),
    ensures
        forall|i: int|
            0 <= i < view.pending.len() ==> holds(
                after_steps(view, steps).entries,
                #[trigger] view.pending[i],
            ),
        forall|i: int|
            0 <= i < listed_items(view, steps).len() ==> holds(
                after_steps(view, steps).entries,
                #[trigger] listed_items(view, steps)[i],
            ),
        after_steps(view, steps).entries.len() == view.entries.len() + view.pending.len()
            + listed_items(view, steps).len(),
        forall|i: int|
            0 <= i < steps.len() && (#[trigger] steps[i] matches CaptureStep::Found(meta)
                && meta.kind == FileKind::Directory) ==> i + 1 < steps.len() && steps[i + 1]
                is Listed,
    decreases steps.len(),
{
    let done = after_steps(view, steps);
    if steps.len() > 0 {
        let step = steps[0];
        let rest = steps.skip(1);
        let next = after_step(view, step);
        law_capture_holds_all(next, rest);
        let later = listed_items(next, rest);
        let all = listed_items(view, steps);
        match step {
            CaptureStep::Found(meta) => {
                let n = view.pending.len() - 1;
                let at = view.entries.len() as int;
                lemma_entries_stay(next, rest);
                assert(done.entries[at] == next.entries[at]);
                assert(holds(done.entries, view.pending[n])) by {
                    assert(done.entries[at].entry.path == joined(
                        portable_all(view.pending[n].1->0),
                    ));
                }
                assert forall|i: int| 0 <= i < view.pending.len() implies holds(
                    done.entries,
                    #[trigger] view.pending[i],
                ) by {
                    if i < n {
                        assert(next.pending[i] == view.pending[i]);
                    }
                }
                if meta.kind == FileKind::Directory {
                    reveal_with_fuel(takes_all, 2);
                    assert(rest.len() > 0);
                    assert(takes(next, rest[0]));
                    assert(rest[0] == steps[1]);
                }
            },
            CaptureStep::Listed { names, sources, order } => {
                let children = child_items(view.open->0, names, sources, order);
                assert forall|i: int| 0 <= i < view.pending.len() implies holds(
                    done.entries,
                    #[trigger] view.pending[i],
                ) by {
                    assert(next.pending[i] == view.pending[i]);
                }
                assert forall|i: int| 0 <= i < all.len() implies holds(
                    done.entries,
                    #[trigger] all[i],
                ) by {
                    if i < children.len() {
                        assert(next.pending[view.pending.len() + i] == all[i]);
                    } else {
                        assert(all[i] == later[i - children.len()]);
                    }
                }
            },
        }
        assert forall|i: int|
            0 <= i < steps.len() && (#[trigger] steps[i] matches CaptureStep::Found(meta)
                && meta.kind == FileKind::Directory) implies i + 1 < steps.len() && steps[i + 1]
            is Listed by {
            if i > 0 {
                assert(rest[i - 1] == steps[i]);
                assert(rest[i] == steps[i + 1]);
            }
        }
    }
}

/// Whether a path is its own portable form.
pub open spec fn is_portable(path: Seq<Seq<u8>>) -> bool {
    portable_all(path) == path
}

/// Whether a directory holds each name once, and every name is its own portable form.
pub open spec fn plain_names(names: Seq<Seq<u8>>) -> bool {
    &&& names.no_duplicates()
    &&& forall|i: int| 0 <= i < names.len() ==> portable(#[trigger] names[i]) == names[i]
}

/// Whether all directories that were listed hold such names.
pub open spec fn plain_steps(steps: Seq<CaptureStep>) -> bool {
    forall|i: int|
        0 <= i < steps.len() ==> (#[trigger] steps[i] matches CaptureStep::Listed { names, .. }
            ==> plain_names(names))
}

/// Whether what was found is what a manifest says, last changed at this time.
pub open spec fn agrees(meta: FileMeta, entry: EntryView, modified: u128) -> bool {
    &&& meta.kind == match entry.kind {
        TransferEntryKind::File => FileKind::File,
        TransferEntryKind::Directory => FileKind::Directory,
    }
    &&& entry.kind == TransferEntryKind::File ==> meta.size == entry.size
    &&& meta.mode == entry.mode
    &&& meta.modified_nanos == modified
}

/// Whether the manifest has an entry with this name in a directory.
pub open spec fn has_child(entries: Seq<EntryView>, directory: Seq<Seq<u8>>, name: Seq<u8>) -> bool {
    exists|j: int|
        0 <= j < entries.len() && #[trigger] entry_path(entries[j]) == directory.push(name)
}

/// Whether a capture is told what stands on a disk that holds the files of a manifest,
/// each last changed at its time: of every path what the manifest says, and of every
/// directory the names that the manifest has in it, once each.
pub open spec fn told_of(
    view: CaptureView,
    steps: Seq<CaptureStep>,
    entries: Seq<EntryView>,
    times: Seq<u128>,
) -> bool
    decreases steps.len(),
{
    steps.len() > 0 ==> {
        &&& match steps[0] {
            CaptureStep::Found(meta) => forall|j: int|
                0 <= j < entries.len() && #[trigger] entry_path(entries[j]) == view.next_path()
                    ==> agrees(meta, entries[j], times[j]),
            CaptureStep::Listed { names, .. } => {
                &&& names.no_duplicates()
                &&& forall|x: Seq<u8>| #[trigger]
                    names.contains(x) <==> has_child(entries, view.open->0, x)
            },
        }
        &&& told_of(after_step(view, steps[0]), steps.skip(1), entries, times)
    }
}

/// The paths of what is still to be looked at.
spec fn paths_of(items: Seq<(u64, Option<Seq<Seq<u8>>>)>) -> Seq<Option<Seq<Seq<u8>>>> {
    items.map_values(|item: (u64, Option<Seq<Seq<u8>>>)| item.1)
}

/// Whether all that is still to be looked at, and the directory that is to be listed, are
/// under portable paths.
spec fn portable_view(view: CaptureView) -> bool {
    &&& forall|i: int|
        0 <= i < view.pending.len() ==> ((#[trigger] view.pending[i]).1 matches Some(path)
            ==> is_portable(path))
    &&& view.open matches Some(path) ==> is_portable(path)
}

proof fn lemma_portable_view(view: CaptureView, step: CaptureStep)
    requires
        takes(view, step),
        portable_view(view),
        step matches CaptureStep::Listed { names, .. } ==> plain_names(names),
    ensures
        portable_view(after_step(view, step)),
{
    let after = after_step(view, step);
    match step {
        CaptureStep::Found(meta) => {
            assert forall|i: int| 0 <= i < after.pending.len() implies ((
            #[trigger] after.pending[i]).1 matches Some(path) ==> is_portable(path)) by {
                assert(after.pending[i] == view.pending[i]);
            }
            assert(view.pending[view.pending.len() - 1].1 == Some(view.next_path()));
            assert(is_portable(view.next_path()));
        },
        CaptureStep::Listed { names, sources, order } => {
            let directory = view.open->0;
            let children = child_items(directory, names, sources, order);
            assert forall|i: int| 0 <= i < after.pending.len() implies ((
            #[trigger] after.pending[i]).1 matches Some(path) ==> is_portable(path)) by {
                if i < view.pending.len() {
                    assert(after.pending[i] == view.pending[i]);
                } else {
                    let m = i - view.pending.len();
                    assert(after.pending[i] == children[m]);
                    let name = names[order[order.len() - 1 - m]];
                    assert(portable(name) == name);
                    assert(portable_all(directory.push(name)) == portable_all(directory).push(
                        portable(name),
                    ));
                }
            }
        },
    }
}

proof fn lemma_step_is_valid(view: CaptureView, step: CaptureStep)
    requires
        view.valid(),
        takes(view, step),
    ensures
        after_step(view, step).valid(),
{
    match step {
        CaptureStep::Found(meta) => {
            lemma_entered_is_valid(view, meta);
        },
        CaptureStep::Listed { names, sources, order } => {
            lemma_listed_is_valid(view, names, sources, order);
        },
    }
}

/// The path of the entry that is made of what is found at a portable path.
proof fn lemma_entered_path(view: CaptureView, meta: FileMeta)
    requires
        view.valid(),
        takes(view, CaptureStep::Found(meta)),
        portable_view(view),
    ensures
        view.next_path().len() > 0,
        is_portable(view.next_path()),
        entry_path(view.entered(meta).entries.last().entry) == view.next_path(),
        view.next_wire() == joined(view.next_path()),
{
    assert(view.pending[view.pending.len() - 1].1 == Some(view.next_path()));
    law_wire_path_round_trip(view.next_path());
}

proof fn lemma_plain_rest(steps: Seq<CaptureStep>)
    requires
        plain_steps(steps),
        steps.len() > 0,
    ensures
        plain_steps(steps.skip(1)),
{
    let rest = steps.skip(1);
    assert forall|i: int| 0 <= i < rest.len() implies (
    #[trigger] rest[i] matches CaptureStep::Listed { names, .. } ==> plain_names(names)) by {
        assert(rest[i] == steps[i + 1]);
    }
}

/// Once a directory was listed, nothing comes into the manifest below it but what was
/// listed.
#[verifier::rlimit(30)]
proof fn lemma_children(
    view: CaptureView,
    steps: Seq<CaptureStep>,
    directory: Seq<Seq<u8>>,
    names: Seq<Seq<u8>>,
    at: int,
)
    requires
        takes_all(view, steps),
        plain_steps(steps),
        view.valid(),
        portable_view(view),
        view.open != Some(directory),
        0 <= at < view.entries.len(),
        entry_path(view.entries[at].entry) == directory,
        forall|i: int, x: Seq<u8>|
            0 <= i < view.pending.len() && (#[trigger] view.pending[i]).1 == Some(
                #[trigger] directory.push(x),
            ) ==> names.contains(x),
        forall|i: int, x: Seq<u8>|
            0 <= i < view.entries.len() && entry_path((#[trigger] view.entries[i]).entry) == (
            #[trigger] directory.push(x)) ==> names.contains(x),
    ensures
        forall|i: int, x: Seq<u8>|
            0 <= i < after_steps(view, steps).entries.len() && entry_path(
                (#[trigger] after_steps(view, steps).entries[i]).entry,
            ) == (#[trigger] directory.push(x)) ==> names.contains(x),
    decreases steps.len(),
{
    if steps.len() > 0 {
        let step = steps[0];
        let next = after_step(view, step);
        let rest = steps.skip(1);
        lemma_plain_rest(steps);
        lemma_portable_view(view, step);
        lemma_step_is_valid(view, step);
        match step {
            CaptureStep::Found(meta) => {
                lemma_entered_path(view, meta);
                let n = view.entries.len() as int;
                assert(view.pending[view.pending.len() - 1].1 == Some(view.next_path()));
                if view.next_path() == directory {
                    assert(view.entries[at].entry.path == joined(directory));
                    assert(view.taken(view.next_wire()));
                }
                assert forall|i: int, x: Seq<u8>|
                    0 <= i < next.entries.len() && entry_path((#[trigger] next.entries[i]).entry)
                        == (#[trigger] directory.push(x)) implies names.contains(x) by {
                    if i < n {
                        assert(next.entries[i] == view.entries[i]);
                    }
                }
                assert forall|i: int, x: Seq<u8>|
                    0 <= i < next.pending.len() && (#[trigger] next.pending[i]).1 == Some(
                        #[trigger] directory.push(x),
                    ) implies names.contains(x) by {
                    assert(next.pending[i] == view.pending[i]);
                }
                assert(next.entries[at] == view.entries[at]);
            },
            CaptureStep::Listed { names: found, sources, order } => {
                let other = view.open->0;
                let children = child_items(other, found, sources, order);
                assert forall|i: int, x: Seq<u8>|
                    0 <= i < next.pending.len() && (#[trigger] next.pending[i]).1 == Some(
                        #[trigger] directory.push(x),
                    ) implies names.contains(x) by {
                    if i < view.pending.len() {
                        assert(next.pending[i] == view.pending[i]);
                    } else {
                        let m = i - view.pending.len();
                        assert(next.pending[i] == children[m]);
                        let name = found[order[order.len() - 1 - m]];
                        assert(other.push(name) == directory.push(x));
                        assert(other.push(name).drop_last() == other);
                        assert(directory.push(x).drop_last() == directory);
                    }
                }
            },
        }
        lemma_children(next, rest, directory, names, at);
    }
}

/// Whether nothing lies in a directory yet.
spec fn is_empty(view: CaptureView, directory: Seq<Seq<u8>>) -> bool {
    &&& forall|i: int, x: Seq<u8>|
        0 <= i < view.pending.len() ==> (#[trigger] view.pending[i]).1 != Some(
            #[trigger] directory.push(x),
        )
    &&& forall|i: int, x: Seq<u8>|
        0 <= i < view.entries.len() ==> entry_path((#[trigger] view.entries[i]).entry) != (
        #[trigger] directory.push(x))
}

/// A directory was listed with the names that the manifest has in it in the end.
#[verifier::rlimit(30)]
proof fn lemma_listed_names(a: CaptureView, steps: Seq<CaptureStep>, names_b: Seq<Seq<u8>>)
    requires
        takes_all(a, steps),
        is_done(after_steps(a, steps)),
        plain_steps(steps),
        a.valid(),
        portable_view(a),
        steps.len() > 0,
        steps[0] is Listed,
        is_empty(a, a.open->0),
        a.entries.len() > 0,
        entry_path(a.entries.last().entry) == a.open->0,
        forall|x: Seq<u8>| #[trigger]
            names_b.contains(x) <==> has_child(
                manifest_of(after_steps(a, steps).entries),
                a.open->0,
                x,
            ),
    ensures
        plain_names(steps[0]->names),
        forall|x: Seq<u8>| #[trigger] steps[0]->names.contains(x) <==> names_b.contains(x),
{
    let done = after_steps(a, steps);
    let entries = manifest_of(done.entries);
    let next = after_step(a, steps[0]);
    let rest = steps.skip(1);
    let directory = a.open->0;
    let names = steps[0]->names;
    let sources = steps[0]->sources;
    let order = steps[0]->order;
    assert(steps[0] == CaptureStep::Listed { names, sources, order });
    let children = child_items(directory, names, sources, order);
    lemma_plain_rest(steps);
    lemma_portable_view(a, steps[0]);
    lemma_step_is_valid(a, steps[0]);
    law_listing_is_complete(names, order);
    law_capture_holds_all(next, rest);
    let list = ordered(names, order);
    assert forall|i: int, x: Seq<u8>|
        0 <= i < next.pending.len() && (#[trigger] next.pending[i]).1 == Some(
            #[trigger] directory.push(x),
        ) implies names.contains(x) by {
        if i < a.pending.len() {
            assert(next.pending[i] == a.pending[i]);
        } else {
            let m = i - a.pending.len();
            assert(next.pending[i] == children[m]);
            let at = order[order.len() - 1 - m];
            assert(directory.push(names[at]).last() == directory.push(x).last());
        }
    }
    lemma_children(next, rest, directory, names, a.entries.len() - 1);
    assert forall|x: Seq<u8>| #[trigger] names.contains(x) <==> names_b.contains(x) by {
        if names.contains(x) {
            assert(list.contains(x));
            let k = choose|k: int| 0 <= k < list.len() && list[k] == x;
            let item = children[order.len() - 1 - k];
            assert(item.1 == Some(directory.push(x)));
            assert(next.pending[a.pending.len() + (order.len() - 1 - k)] == item);
            assert(holds(done.entries, item));
            let j = choose|j: int|
                0 <= j < done.entries.len() && (
                #[trigger] done.entries[j]).entry.path == joined(
                    portable_all(directory.push(x)),
                );
            law_wire_path_round_trip(directory.push(x));
            assert(is_portable(directory.push(x)));
            assert(entry_path(entries[j]) == directory.push(x));
            assert(has_child(entries, directory, x));
        }
        if names_b.contains(x) {
            assert(has_child(entries, directory, x));
            let j = choose|j: int|
                0 <= j < entries.len() && #[trigger] entry_path(entries[j])
                    == directory.push(x);
            assert(entries[j] == done.entries[j].entry);
        }
    }
}

/// Two captures that are at the same point and are told the same come to the same end.
#[verifier::rlimit(40)]
#[verifier::spinoff_prover]
proof fn lemma_lockstep(
    a: CaptureView,
    steps: Seq<CaptureStep>,
    b: CaptureView,
    again: Seq<CaptureStep>,
    times: Seq<u128>,
)
    requires
        takes_all(a, steps),
        is_done(after_steps(a, steps)),
        plain_steps(steps),
        a.valid(),
        portable_view(a),
        takes_all(b, again),
        is_done(after_steps(b, again)),
        told_of(b, again, manifest_of(after_steps(a, steps).entries), times),
        paths_of(a.pending) == paths_of(b.pending),
        a.open == b.open,
        a.open matches Some(directory) ==> is_empty(a, directory) && a.entries.len() > 0
            && entry_path(a.entries.last().entry) == directory,
        manifest_of(a.entries) == manifest_of(b.entries),
        times.len() == after_steps(a, steps).entries.len(),
        times_of(b.entries) == times.take(b.entries.len() as int),
    ensures
        manifest_of(after_steps(b, again).entries) == manifest_of(after_steps(a, steps).entries),
        times_of(after_steps(b, again).entries) == times,
    decreases steps.len(),
{
    let done = after_steps(a, steps);
    let entries = manifest_of(done.entries);
    assert(paths_of(a.pending).len() == a.pending.len());
    assert(paths_of(b.pending).len() == b.pending.len());
    assert(manifest_of(a.entries).len() == a.entries.len());
    assert(manifest_of(b.entries).len() == b.entries.len());
    lemma_entries_stay(a, steps);
    if steps.len() == 0 {
        assert(again.len() == 0);
        assert(times.take(times.len() as int) == times);
    } else {
        assert(again.len() > 0);
        let next = after_step(a, steps[0]);
        let rest = steps.skip(1);
        let next_b = after_step(b, again[0]);
        let rest_b = again.skip(1);
        lemma_plain_rest(steps);
        lemma_portable_view(a, steps[0]);
        lemma_step_is_valid(a, steps[0]);
        match steps[0] {
            CaptureStep::Found(meta) => {
                lemma_entered_path(a, meta);
                lemma_entries_stay(next, rest);
                let n = a.entries.len() as int;
                let m = a.pending.len() - 1;
                let path = a.next_path();
                let found = again[0]->Found_0;
                assert(again[0] == CaptureStep::Found(found));
                assert(paths_of(a.pending)[m] == paths_of(b.pending)[m]);
                assert(b.next_path() == path);
                assert(done.entries[n] == next.entries[n]);
                assert(entries[n] == next.entries[n].entry);
                assert(entry_path(entries[n]) == path);
                assert(agrees(found, entries[n], times[n]));
                assert(next_b.entries[n].entry == next.entries[n].entry);
                assert(manifest_of(next_b.entries) == manifest_of(b.entries).push(
                    next_b.entries[n].entry,
                ));
                assert(manifest_of(next.entries) == manifest_of(a.entries).push(
                    next.entries[n].entry,
                ));
                assert(paths_of(next.pending) == paths_of(a.pending).drop_last());
                assert(paths_of(next_b.pending) == paths_of(b.pending).drop_last());
                assert(times_of(next_b.entries) == times_of(b.entries).push(times[n]));
                assert(times.take(n + 1) == times.take(n).push(times[n]));
                if meta.kind == FileKind::Directory {
                    lemma_new_directory_is_empty(a, meta);
                }
                lemma_lockstep(next, rest, next_b, rest_b, times);
            },
            CaptureStep::Listed { names, sources, order } => {
                let directory = a.open->0;
                let names_b = again[0]->names;
                let sources_b = again[0]->sources;
                let order_b = again[0]->order;
                assert(again[0] == CaptureStep::Listed {
                    names: names_b,
                    sources: sources_b,
                    order: order_b,
                });
                let children = child_items(directory, names, sources, order);
                let children_b = child_items(directory, names_b, sources_b, order_b);
                let list = ordered(names, order);
                lemma_listed_names(a, steps, names_b);
                law_order_depends_on_names_alone(names, order, names_b, order_b);
                let list_b = ordered(names_b, order_b);
                assert(list.len() == order.len());
                assert(list_b.len() == order_b.len());
                assert(paths_of(children) == paths_of(children_b)) by {
                    assert forall|i: int| 0 <= i < children.len() implies paths_of(children)[i]
                        == paths_of(children_b)[i] by {
                        assert(list[order.len() - 1 - i] == list_b[order.len() - 1 - i]);
                    }
                }
                assert(paths_of(next.pending) == paths_of(a.pending) + paths_of(children));
                assert(paths_of(next_b.pending) == paths_of(b.pending) + paths_of(children_b));
                lemma_lockstep(next, rest, next_b, rest_b, times);
            },
        }
    }
}

/// Nothing lies below a directory that was just found.
proof fn lemma_new_directory_is_empty(view: CaptureView, meta: FileMeta)
    requires
        view.valid(),
        portable_view(view),
        takes(view, CaptureStep::Found(meta)),
    ensures
        is_empty(view.entered(meta), view.next_path()),
{
    let next = view.entered(meta);
    let directory = view.next_path();
    lemma_entered_path(view, meta);
    assert forall|i: int, x: Seq<u8>|
        0 <= i < next.pending.len() implies (#[trigger] next.pending[i]).1 != Some(
        #[trigger] directory.push(x),
    ) by {
        assert(next.pending[i] == view.pending[i]);
        lemma_not_parented(view, directory, x);
    }
    assert forall|i: int, x: Seq<u8>|
        0 <= i < next.entries.len() implies entry_path((#[trigger] next.entries[i]).entry) != (
    #[trigger] directory.push(x)) by {
        if i < view.entries.len() {
            assert(next.entries[i] == view.entries[i]);
            lemma_not_parented(view, directory, x);
        } else {
            assert(directory.push(x).len() == directory.len() + 1);
        }
    }
}

/// What lies below a path has a directory of the manifest there, so that nothing else is
/// taken there.
proof fn lemma_not_parented(view: CaptureView, directory: Seq<Seq<u8>>, name: Seq<u8>)
    requires
        view.valid(),
        directory.len() > 0,
        is_portable(directory),
        !view.taken(joined(directory)),
    ensures
        !is_parented(view.entries, directory.push(name)),
{
    let path = directory.push(name);
    if is_parented(view.entries, path) {
        let k = directory.len() as int;
        assert(path.take(k) == directory);
        assert(is_directory_path(view.entries, path.take(k)));
        let j = choose|j: int|
            0 <= j < view.entries.len() && #[trigger] entry_path(view.entries[j].entry)
                == path.take(k) && view.entries[j].entry.kind == TransferEntryKind::Directory;
        assert(view.entries[j].entry.path == joined(directory));
        assert(view.taken(joined(directory)));
    }
}

/// The roots among what is still to be looked at, the next one first.
spec fn roots_left(items: Seq<(u64, Option<Seq<Seq<u8>>>)>) -> Seq<Seq<Seq<u8>>>
    decreases items.len(),
{
    if items.len() == 0 {
        seq![]
    } else {
        let before = roots_left(items.drop_last());
        match items.last().1 {
            Some(path) if path.len() == 1 => seq![path] + before,
            _ => before,
        }
    }
}

proof fn lemma_no_roots(
    items: Seq<(u64, Option<Seq<Seq<u8>>>)>,
    children: Seq<(u64, Option<Seq<Seq<u8>>>)>,
)
    requires
        forall|i: int|
            0 <= i < children.len() ==> ((#[trigger] children[i]).1 matches Some(path)
                ==> path.len() != 1),
    ensures
        roots_left(items + children) == roots_left(items),
    decreases children.len(),
{
    if children.len() == 0 {
        assert(items + children == items);
    } else {
        let fewer = children.drop_last();
        assert((items + children).drop_last() == items + fewer);
        assert((items + children).last() == children[children.len() - 1]);
        assert forall|i: int| 0 <= i < fewer.len() implies ((
        #[trigger] fewer[i]).1 matches Some(path) ==> path.len() != 1) by {
            assert(fewer[i] == children[i]);
        }
        lemma_no_roots(items, fewer);
    }
}

/// The roots of the manifest are the roots that were to be looked at, in their order.
#[verifier::rlimit(30)]
proof fn lemma_roots(view: CaptureView, steps: Seq<CaptureStep>)
    requires
        takes_all(view, steps),
        is_done(after_steps(view, steps)),
        plain_steps(steps),
        view.valid(),
        portable_view(view),
    ensures
        root_paths(manifest_of(after_steps(view, steps).entries)) == root_paths(
            manifest_of(view.entries),
        ) + roots_left(view.pending),
    decreases steps.len(),
{
    let before = root_paths(manifest_of(view.entries));
    if steps.len() == 0 {
        assert(before + roots_left(view.pending) == before);
    } else {
        let step = steps[0];
        let next = after_step(view, step);
        let rest = steps.skip(1);
        lemma_plain_rest(steps);
        lemma_portable_view(view, step);
        lemma_step_is_valid(view, step);
        lemma_roots(next, rest);
        match step {
            CaptureStep::Found(meta) => {
                lemma_entered_path(view, meta);
                let path = view.next_path();
                let manifest = manifest_of(next.entries);
                assert(manifest.drop_last() == manifest_of(view.entries));
                assert(manifest.last() == next.entries.last().entry);
                assert(view.pending.last().1 == Some(path));
                let left = roots_left(next.pending);
                assert(before.push(path) + left == before + (seq![path] + left));
            },
            CaptureStep::Listed { names, sources, order } => {
                let directory = view.open->0;
                let children = child_items(directory, names, sources, order);
                let j = choose|j: int|
                    0 <= j < view.entries.len() && #[trigger] entry_path(view.entries[j].entry)
                        == directory && view.entries[j].entry.kind == TransferEntryKind::Directory;
                lemma_entry_path_valid(view.entries[j].entry);
                lemma_no_roots(view.pending, children);
            },
        }
    }
}

proof fn lemma_first_roots(roots: Seq<(u64, Option<Seq<u8>>)>)
    requires
        forall|i: int| 0 <= i < roots.len() ==> (#[trigger] roots[i]).1 is Some,
    ensures
        roots_left(root_items(roots)) == roots.map_values(
            |root: (u64, Option<Seq<u8>>)| seq![root.1->0],
        ),
    decreases roots.len(),
{
    let items = root_items(roots);
    let wanted = roots.map_values(|root: (u64, Option<Seq<u8>>)| seq![root.1->0]);
    if roots.len() == 0 {
        assert(wanted == Seq::<Seq<Seq<u8>>>::empty());
    } else {
        let later = roots.skip(1);
        assert forall|i: int| 0 <= i < later.len() implies (#[trigger] later[i]).1 is Some by {
            assert(later[i] == roots[i + 1]);
        }
        assert(items.drop_last() == root_items(later));
        assert(items.last().1 == Some(seq![roots[0].1->0]));
        lemma_first_roots(later);
        assert(wanted == seq![seq![roots[0].1->0]] + later.map_values(
            |root: (u64, Option<Seq<u8>>)| seq![root.1->0],
        ));
    }
}

proof fn lemma_begun(roots: Seq<(u64, Option<Seq<u8>>)>, internal: bool)
    requires
        roots.len() > 0,
        forall|i: int|
            0 <= i < roots.len() ==> ((#[trigger] roots[i]).1 matches Some(name) ==> portable(name)
                == name),
    ensures
        begun(roots, internal).valid(),
        portable_view(begun(roots, internal)),
{
    let view = begun(roots, internal);
    assert forall|i: int| 0 <= i < view.pending.len() implies ((
    #[trigger] view.pending[i]).1 matches Some(path) ==> path.len() == 1 && is_portable(path)) by {
        let root = roots[roots.len() - 1 - i];
        assert(view.pending[i].1 is Some ==> root.1 is Some);
        if let Some(name) = root.1 {
            assert(portable_all(seq![name]) == seq![portable(name)]);
        }
    }
}

/// Received files are known again. Let copied files be captured, under names that are
/// their own portable form, and sent. Where they were received, let the roots of the
/// transfer be copied and captured from a disk that holds what the manifest says, each
/// file and directory last changed at its time. That gives the manifest and the times
/// again, and so the fingerprint under which the transfer was finished.
pub proof fn law_received_files_are_known_again(
    roots: Seq<(u64, Option<Seq<u8>>)>,
    steps: Seq<CaptureStep>,
    received: Seq<(u64, Option<Seq<u8>>)>,
    again: Seq<CaptureStep>,
    times: Seq<u128>,
)
    requires
        roots.len() > 0,
        forall|i: int|
            0 <= i < roots.len() ==> ((#[trigger] roots[i]).1 matches Some(name) ==> portable(name)
                == name),
        takes_all(begun(roots, false), steps),
        is_done(after_steps(begun(roots, false), steps)),
        plain_steps(steps),
        times.len() == after_steps(begun(roots, false), steps).entries.len(),
        takes_all(begun(received, true), again),
        is_done(after_steps(begun(received, true), again)),
        ({
            let entries = manifest_of(after_steps(begun(roots, false), steps).entries);
            &&& received.len() == root_paths(entries).len()
            &&& forall|i: int|
                0 <= i < received.len() ==> (#[trigger] received[i]).1 == Some(
                    root_paths(entries)[i][0],
                )
            &&& told_of(begun(received, true), again, entries, times)
        }),
    ensures
        ({
            let entries = manifest_of(after_steps(begun(roots, false), steps).entries);
            let captured = after_steps(begun(received, true), again).entries;
            &&& manifest_of(captured) == entries
            &&& times_of(captured) == times
            &&& manifest_hash(manifest_of(captured), times_of(captured)) == manifest_hash(
                entries,
                times,
            )
        }),
{
    let a = begun(roots, false);
    let b = begun(received, true);
    let done = after_steps(a, steps);
    let entries = manifest_of(done.entries);
    lemma_begun(roots, false);
    law_capture_holds_all(a, steps);
    assert forall|i: int| 0 <= i < roots.len() implies (#[trigger] roots[i]).1 is Some by {
        assert(holds(done.entries, a.pending[roots.len() - 1 - i]));
    }
    lemma_first_roots(roots);
    lemma_roots(a, steps);
    let tops = roots.map_values(|root: (u64, Option<Seq<u8>>)| seq![root.1->0]);
    assert(root_paths(manifest_of(a.entries)) + tops == tops);
    assert(root_paths(entries) == tops);
    assert(paths_of(a.pending) == paths_of(b.pending)) by {
        assert forall|i: int| 0 <= i < roots.len() implies paths_of(a.pending)[i] == paths_of(
            b.pending,
        )[i] by {
            let k = roots.len() - 1 - i;
            assert(tops[k] == seq![roots[k].1->0]);
            assert(received[k].1 == Some(tops[k][0]));
            assert(roots[k].1 is Some);
        }
    }
    assert(manifest_of(a.entries) == manifest_of(b.entries));
    assert(times_of(b.entries) == times.take(0));
    lemma_lockstep(a, steps, b, again, times);
}

/// Captures of the same files, with the same sizes, permissions and times, are known by
/// the same fingerprint.
pub proof fn law_equal_captures_are_known_alike(a: CapturedFiles, b: CapturedFiles)
    requires
        a.wf(),
        b.wf(),
        a.manifest() == b.manifest(),
        a.times() == b.times(),
    ensures
        a.identity == b.identity,
{
}

} // verus!
