//! What is captured of copied files for devices that are connected directly.

use vstd::prelude::*;
use vstd::utf8::valid_utf8;

use crate::capture::{CopiedPath, FileKind, FileMeta};
use crate::direct::capture::{
    child_items, manifest_of, root_items, times_of, CaptureError, CaptureView, CapturedFiles,
    LocalView, PendingView,
};
use crate::direct::paths::{joined, portable_all};
use crate::direct::walk::{after_step, after_steps, takes, takes_all, CaptureStep};
use crate::direct::wire::EntryView;
use crate::order::{is_order, law_listing_is_complete, stands_before};
use crate::paths::lossy;
use crate::wire::TransferEntryKind;

verus! {

/// Whether a name may stand in a path: it is not empty, `.` or `..`.
pub open spec fn is_name(name: Seq<char>) -> bool {
    name.len() > 0 && name != seq!['.'] && name != seq!['.', '.']
}

/// Where an item goes: below its directory, under its name as text, all of it made fit.
pub open spec fn goes_to(parent: Seq<Seq<char>>, name: Seq<u8>) -> Seq<Seq<char>> {
    portable_all(parent.push(lossy(name)))
}

/// Whether an entry has this path.
pub open spec fn collides(entries: Seq<LocalView>, path: Seq<Seq<char>>) -> bool {
    exists|j: int|
        0 <= j < entries.len() && (#[trigger] entries[j]).entry.path == joined(path)
}

/// What is copied is captured. Whatever directory it stands in, however deep, a regular file
/// or a directory that is found goes into the manifest under its path, with its
/// permissions and time, and a file with its size and its source; unless its name is none,
/// an entry has its path, or the manifest is full.
pub proof fn law_what_is_found_is_captured(
    view: CaptureView,
    source: u64,
    parent: Seq<Seq<char>>,
    name: Seq<u8>,
    meta: FileMeta,
)
    requires
        view.open is None,
        view.pending.len() > 0,
        view.pending.last() == (PendingView { source, parent, name: Some(name) }),
        view.entries.len() < 100_000,
        meta.kind == FileKind::File || meta.kind == FileKind::Directory,
        is_name(lossy(name)),
        !collides(view.entries, goes_to(parent, name)),
    ensures
        view.look_fault() is None,
        view.enter_fault(meta.kind) is None,
        takes(view, CaptureStep::Found(meta)),
        ({
            let after = view.entered(meta);
            let path = goes_to(parent, name);
            let directory = meta.kind == FileKind::Directory;
            &&& after.pending == view.pending.drop_last()
            &&& after.internal == view.internal
            &&& after.open == if directory {
                Some(path)
            } else {
                None
            }
            &&& after.entries == view.entries.push(
                LocalView {
                    entry: EntryView {
                        path: joined(path),
                        kind: if directory {
                            TransferEntryKind::Directory
                        } else {
                            TransferEntryKind::File
                        },
                        size: if directory {
                            0
                        } else {
                            meta.size
                        },
                        mode: meta.mode,
                    },
                    source: if directory {
                        None
                    } else {
                        Some(source)
                    },
                    modified: meta.modified_nanos,
                },
            )
        }),
{
    let path = goes_to(parent, name);
    assert(view.pending.last().path() == path);
    if view.taken(view.next_wire()) {
        let j = choose|j: int|
            0 <= j < view.entries.len() && (#[trigger] view.entries[j]).entry.path
                == view.next_wire();
        assert(view.entries[j].entry.path == joined(path));
    }
}

/// Nothing else is captured: not the entry after the last that fits, no symbolic link and no
/// special file, nothing whose name is none, and nothing that collides; and each is refused
/// for its own reason.
pub proof fn law_what_cannot_be_sent_is_refused(
    view: CaptureView,
    source: u64,
    parent: Seq<Seq<char>>,
    name: Seq<u8>,
    kind: FileKind,
)
    requires
        view.pending.len() > 0,
        view.pending.last() == (PendingView { source, parent, name: Some(name) }),
    ensures
        view.look_fault() == if view.entries.len() >= 100_000 {
            Some(CaptureError::TooManyEntries)
        } else {
            None
        },
        kind == FileKind::Symlink ==> view.enter_fault(kind) == Some(CaptureError::Symlink),
        kind != FileKind::Symlink && !is_name(lossy(name)) ==> view.enter_fault(kind) == Some(
            CaptureError::InvalidPath,
        ),
        kind != FileKind::Symlink && is_name(lossy(name)) && collides(
            view.entries,
            goes_to(parent, name),
        ) ==> view.enter_fault(kind) == Some(CaptureError::DuplicatePath),
        kind == FileKind::Special && is_name(lossy(name)) && !collides(
            view.entries,
            goes_to(parent, name),
        ) ==> view.enter_fault(kind) == Some(CaptureError::SpecialFile),
{
    let path = goes_to(parent, name);
    assert(view.pending.last().path() == path);
    if collides(view.entries, path) {
        let j = choose|j: int|
            0 <= j < view.entries.len() && (#[trigger] view.entries[j]).entry.path == joined(path);
        assert(view.taken(view.next_wire()));
    }
    if view.taken(view.next_wire()) {
        let j = choose|j: int|
            0 <= j < view.entries.len() && (#[trigger] view.entries[j]).entry.path
                == view.next_wire();
        assert(view.entries[j].entry.path == joined(path));
    }
}

/// A copied path without a file name that is text is refused.
pub proof fn law_paths_have_names(view: CaptureView)
    requires
        view.pending.len() > 0,
        view.pending.last().name is None,
    ensures
        view.look_fault() == Some(CaptureError::NoName),
{
}

/// Whether a step tells of something that can be captured.
pub open spec fn can_be_captured(view: CaptureView, step: CaptureStep) -> bool {
    match step {
        CaptureStep::Found(meta) => {
            &&& view.open is None
            &&& view.pending.len() > 0
            &&& view.entries.len() < 100_000
            &&& meta.kind == FileKind::File || meta.kind == FileKind::Directory
            &&& view.pending.last().name matches Some(name) && is_name(lossy(name)) && !collides(
                view.entries,
                goes_to(view.pending.last().parent, name),
            )
        },
        CaptureStep::Listed { names, sources, order } => {
            &&& view.open is Some
            &&& names.len() == sources.len()
            &&& is_order(names, order)
        },
    }
}

/// Whether every step of a walk does.
pub open spec fn all_can_be_captured(view: CaptureView, steps: Seq<CaptureStep>) -> bool {
    forall|k: int|
        0 <= k < steps.len() ==> can_be_captured(
            after_steps(view, steps.take(k)),
            #[trigger] steps[k],
        )
}

/// A walk succeeds, however long it is, if all that it finds are regular files and
/// directories under names, no two of them at one path, and not too many.
pub proof fn law_capture_succeeds(view: CaptureView, steps: Seq<CaptureStep>)
    requires
        all_can_be_captured(view, steps),
    ensures
        takes_all(view, steps),
    decreases steps.len(),
{
    reveal_with_fuel(takes_all, 2);
    if steps.len() > 0 {
        assert(steps.take(0) == Seq::<CaptureStep>::empty());
        assert(can_be_captured(after_steps(view, steps.take(0)), steps[0]));
        if let CaptureStep::Found(meta) = steps[0] {
            let item = view.pending.last();
            law_what_is_found_is_captured(view, item.source, item.parent, item.name->0, meta);
        }
        let next = after_step(view, steps[0]);
        let rest = steps.skip(1);
        assert forall|k: int| 0 <= k < rest.len() implies can_be_captured(
            after_steps(next, rest.take(k)),
            #[trigger] rest[k],
        ) by {
            assert(steps[k + 1] == rest[k]);
            assert(steps.take(k + 1)[0] == steps[0]);
            assert(steps.take(k + 1).skip(1) == rest.take(k));
        }
        law_capture_succeeds(next, rest);
    }
}

/// Copied paths are looked at in their order, each under its file name where that is text.
pub proof fn law_copied_paths_come_in_order(roots: Seq<CopiedPath>, i: int)
    requires
        0 <= i < roots.len(),
    ensures
        root_items(roots).len() == roots.len(),
        ({
            let item = root_items(roots)[roots.len() - 1 - i];
            &&& item.source == roots[i].source
            &&& item.parent.len() == 0
            &&& (roots[i].name matches Some(name) && valid_utf8(name@)) ==> item.name == Some(
                roots[i].name->0@,
            )
            &&& !(roots[i].name matches Some(name) && valid_utf8(name@)) ==> item.name is None
        }),
{
}

/// The contents of a directory are all looked at before anything else, each below the
/// directory under its name and with its number.
pub proof fn law_contents_come_next(
    view: CaptureView,
    directory: Seq<Seq<char>>,
    names: Seq<Seq<u8>>,
    sources: Seq<u64>,
    order: Seq<int>,
    at: int,
)
    requires
        view.open == Some(directory),
        names.len() == sources.len(),
        is_order(names, order),
        0 <= at < names.len(),
    ensures
        view.listed(names, sources, order).open is None,
        view.listed(names, sources, order).entries == view.entries,
        view.listed(names, sources, order).internal == view.internal,
        view.listed(names, sources, order).pending.len() == view.pending.len() + names.len(),
        view.listed(names, sources, order).pending.take(view.pending.len() as int)
            == view.pending,
        view.listed(names, sources, order).pending.skip(view.pending.len() as int).contains(
            PendingView { source: sources[at], parent: directory, name: Some(names[at]) },
        ),
{
    let after = view.listed(names, sources, order);
    let children = child_items(directory, names, sources, order);
    law_listing_is_complete(names, order);
    assert(after.pending.take(view.pending.len() as int) == view.pending);
    assert(after.pending.skip(view.pending.len() as int) == children);
    assert(order.contains(at));
    let i = choose|i: int| 0 <= i < order.len() && order[i] == at;
    assert(children[order.len() - 1 - i] == (PendingView {
        source: sources[at],
        parent: directory,
        name: Some(names[at]),
    }));
}

/// Of the contents of a directory, no name is looked at before one that stands before it.
pub proof fn law_contents_come_in_order(
    view: CaptureView,
    directory: Seq<Seq<char>>,
    names: Seq<Seq<u8>>,
    sources: Seq<u64>,
    order: Seq<int>,
    sooner: int,
    later: int,
)
    requires
        view.open == Some(directory),
        names.len() == sources.len(),
        is_order(names, order),
        view.pending.len() <= later < sooner < view.pending.len() + names.len(),
    ensures
        ({
            let pending = view.listed(names, sources, order).pending;
            let first = pending[sooner].name->0;
            let second = pending[later].name->0;
            stands_before(first, second) || first == second
        }),
{
    let kept = view.pending.len() as int;
    let n = names.len() as int;
    let children = child_items(directory, names, sources, order);
    let a = order[n - 1 - (sooner - kept)];
    let b = order[n - 1 - (later - kept)];
    assert(children[sooner - kept].name == Some(names[a]));
    assert(children[later - kept].name == Some(names[b]));
    assert(crate::order::listed_before(names, a, b));
}

/// What is captured is announced as it is: the manifest holds every entry, in order, and
/// every time goes with its entry.
pub proof fn law_manifest_is_what_was_captured(entries: Seq<LocalView>, i: int)
    requires
        0 <= i < entries.len(),
    ensures
        manifest_of(entries).len() == entries.len(),
        manifest_of(entries)[i] == entries[i].entry,
        times_of(entries).len() == entries.len(),
        times_of(entries)[i] == entries[i].modified,
{
}

/// The same holds of captured files.
pub proof fn law_captured_files_are_announced(files: CapturedFiles, i: int)
    requires
        0 <= i < files.entries@.len(),
    ensures
        files.manifest().len() == files.entries@.len(),
        files.manifest()[i] == files.entries@[i].entry@,
        files.times().len() == files.entries@.len(),
        files.times()[i] == files.entries@[i].modified_nanos,
{
}

} // verus!
