//! What is captured of copied files.

use vstd::prelude::*;

use crate::capture::{
    child_items, copied_views, manifest_of, root_items, times_of, CaptureError, CaptureView,
    CapturedFiles, CopiedPath, FileKind, FileMeta, LocalView,
};
use crate::order::{is_order, law_listing_is_complete, stands_before};
use crate::paths::{collision_key, joined, portable_all, PathError};
use crate::walk::{after_step, after_steps, takes, takes_all, CaptureStep};
use crate::wire::{EntryView, TransferEntryKind};

verus! {

/// Whether a name may stand in a path: it is not empty, `.` or `..`.
pub open spec fn is_name(name: Seq<u8>) -> bool {
    name.len() > 0 && name != seq![0x2eu8] && name != seq![0x2eu8, 0x2eu8]
}

/// Whether an entry has a path that cannot be told from this one.
pub open spec fn collides(entries: Seq<LocalView>, path: Seq<Seq<u8>>) -> bool {
    exists|j: int|
        0 <= j < entries.len() && collision_key((#[trigger] entries[j]).entry.path)
            == collision_key(joined(portable_all(path)))
}

/// What is copied is captured. Whatever path is looked at, of however many components, a
/// regular file or a directory that is found there goes into the manifest under that
/// path, with its permissions and time, and a file with its size and its source; unless
/// a component is no name, the path collides with one before, or the manifest is full.
pub proof fn law_what_is_found_is_captured(
    view: CaptureView,
    source: u64,
    path: Seq<Seq<u8>>,
    meta: FileMeta,
)
    requires
        view.open is None,
        view.pending.len() > 0,
        view.pending.last() == (source, Some(path)),
        view.entries.len() < 100_000,
        meta.kind == FileKind::File || meta.kind == FileKind::Directory,
        forall|i: int| 0 <= i < path.len() ==> is_name(#[trigger] path[i]),
        !collides(view.entries, path),
    ensures
        view.look_fault() is None,
        view.enter_fault(meta.kind) is None,
        takes(view, CaptureStep::Found(meta)),
        ({
            let after = view.entered(meta);
            let directory = meta.kind == FileKind::Directory;
            &&& after.pending == view.pending.drop_last()
            &&& after.internal == view.internal
            &&& after.open == if directory {
                Some(portable_all(path))
            } else {
                None
            }
            &&& after.entries == view.entries.push(
                LocalView {
                    entry: EntryView {
                        path: joined(portable_all(path)),
                        kind: if directory {
                            TransferEntryKind::Directory
                        } else {
                            TransferEntryKind::File
                        },
                        size: if directory {
                            0
                        } else {
                            meta.size
                        },
                        mode: meta.mode,
                    },
                    source: if directory {
                        None
                    } else {
                        Some(source)
                    },
                    modified: meta.modified_nanos,
                },
            )
        }),
{
    assert(view.next_path() == path);
    assert forall|i: int| 0 <= i < path.len() implies !crate::paths::invalid(
        #[trigger] path[i],
    ) by {
        assert(is_name(path[i]));
    }
    if view.taken(view.next_wire()) {
        let j = choose|j: int|
            0 <= j < view.entries.len() && collision_key((#[trigger] view.entries[j]).entry.path)
                == collision_key(view.next_wire());
        assert(collision_key(view.entries[j].entry.path) == collision_key(
            joined(portable_all(path)),
        ));
    }
}

/// Nothing else is captured: not a path without a name, not the entry after the last that
/// fits, no symbolic link and no special file, nothing under a component that is no name,
/// and nothing that collides; and each is refused for its own reason.
pub proof fn law_what_cannot_be_sent_is_refused(
    view: CaptureView,
    source: u64,
    path: Seq<Seq<u8>>,
    meta: FileMeta,
)
    requires
        view.pending.len() > 0,
        view.pending.last() == (source, Some(path)),
    ensures
        view.look_fault() == if view.entries.len() >= 100_000 {
            Some(CaptureError::TooManyEntries)
        } else {
            None
        },
        meta.kind == FileKind::Symlink ==> view.enter_fault(meta.kind) == Some(
            CaptureError::Symlink,
        ),
        meta.kind != FileKind::Symlink && (exists|i: int|
            0 <= i < path.len() && !is_name(#[trigger] path[i])) ==> view.enter_fault(meta.kind)
            == Some(CaptureError::InvalidPath(PathError::InvalidComponent)),
        meta.kind != FileKind::Symlink && (forall|i: int|
            0 <= i < path.len() ==> is_name(#[trigger] path[i])) && collides(view.entries, path)
            ==> view.enter_fault(meta.kind) == Some(CaptureError::DuplicatePath),
        meta.kind == FileKind::Special && (forall|i: int|
            0 <= i < path.len() ==> is_name(#[trigger] path[i])) && !collides(view.entries, path)
            ==> view.enter_fault(meta.kind) == Some(CaptureError::SpecialFile),
{
    assert(view.next_path() == path);
    if exists|i: int| 0 <= i < path.len() && !is_name(#[trigger] path[i]) {
        let i = choose|i: int| 0 <= i < path.len() && !is_name(#[trigger] path[i]);
        assert(crate::paths::invalid(path[i]));
    } else {
        assert forall|i: int| 0 <= i < path.len() implies !crate::paths::invalid(
            #[trigger] path[i],
        ) by {
            assert(is_name(path[i]));
        }
    }
    if collides(view.entries, path) {
        let j = choose|j: int|
            0 <= j < view.entries.len() && collision_key((#[trigger] view.entries[j]).entry.path)
                == collision_key(joined(portable_all(path)));
        assert(view.taken(view.next_wire()));
    }
    if view.taken(view.next_wire()) {
        let j = choose|j: int|
            0 <= j < view.entries.len() && collision_key((#[trigger] view.entries[j]).entry.path)
                == collision_key(view.next_wire());
        assert(collides(view.entries, path));
    }
}

/// Whether a step tells of something that can be captured.
pub open spec fn can_be_captured(view: CaptureView, step: CaptureStep) -> bool {
    match step {
        CaptureStep::Found(meta) => {
            &&& view.open is None
            &&& view.pending.len() > 0
            &&& view.entries.len() < 100_000
            &&& meta.kind == FileKind::File || meta.kind == FileKind::Directory
            &&& view.pending.last().1 matches Some(path) && (forall|i: int|
                0 <= i < path.len() ==> is_name(#[trigger] path[i])) && !collides(
                view.entries,
                path,
            )
        },
        CaptureStep::Listed { names, sources, order } => {
            &&& view.open is Some
            &&& names.len() == sources.len()
            &&& is_order(names, order)
        },
    }
}

/// Whether every step of a walk does.
pub open spec fn all_can_be_captured(view: CaptureView, steps: Seq<CaptureStep>) -> bool {
    forall|k: int|
        0 <= k < steps.len() ==> can_be_captured(
            after_steps(view, steps.take(k)),
            #[trigger] steps[k],
        )
}

/// A walk succeeds, however long it is and however deep, if all that it finds are regular
/// files and directories under names, none of which collides with one before, and not too
/// many.
pub proof fn law_capture_succeeds(view: CaptureView, steps: Seq<CaptureStep>)
    requires
        all_can_be_captured(view, steps),
    ensures
        takes_all(view, steps),
    decreases steps.len(),
{
    reveal_with_fuel(takes_all, 2);
    if steps.len() > 0 {
        assert(steps.take(0) == Seq::<CaptureStep>::empty());
        assert(can_be_captured(after_steps(view, steps.take(0)), steps[0]));
        if let CaptureStep::Found(meta) = steps[0] {
            let item = view.pending.last();
            law_what_is_found_is_captured(view, item.0, item.1->0, meta);
        }
        let next = after_step(view, steps[0]);
        let rest = steps.skip(1);
        assert forall|k: int| 0 <= k < rest.len() implies can_be_captured(
            after_steps(next, rest.take(k)),
            #[trigger] rest[k],
        ) by {
            assert(steps[k + 1] == rest[k]);
            assert(steps.take(k + 1)[0] == steps[0]);
            assert(steps.take(k + 1).skip(1) == rest.take(k));
        }
        law_capture_succeeds(next, rest);
    }
}

/// A copied path without a file name is refused.
pub proof fn law_paths_have_names(view: CaptureView)
    requires
        view.pending.len() > 0,
        view.pending.last().1 is None,
    ensures
        view.look_fault() == Some(CaptureError::NoName),
{
}

/// Copied paths are looked at in their order, each under its file name.
pub proof fn law_copied_paths_come_in_order(roots: Seq<(u64, Option<Seq<u8>>)>, i: int)
    requires
        0 <= i < roots.len(),
    ensures
        root_items(roots).len() == roots.len(),
        root_items(roots)[roots.len() - 1 - i] == (
            roots[i].0,
            match roots[i].1 {
                Some(name) => Some(seq![name]),
                None => None,
            },
        ),
{
}

/// The contents of a directory are all looked at before anything else, each below the
/// directory under its name and with its number.
pub proof fn law_contents_come_next(
    view: CaptureView,
    directory: Seq<Seq<u8>>,
    names: Seq<Seq<u8>>,
    sources: Seq<u64>,
    order: Seq<int>,
    at: int,
)
    requires
        view.open == Some(directory),
        names.len() == sources.len(),
        is_order(names, order),
        0 <= at < names.len(),
    ensures
        view.listed(names, sources, order).open is None,
        view.listed(names, sources, order).entries == view.entries,
        view.listed(names, sources, order).internal == view.internal,
        view.listed(names, sources, order).pending.len() == view.pending.len() + names.len(),
        view.listed(names, sources, order).pending.take(view.pending.len() as int)
            == view.pending,
        view.listed(names, sources, order).pending.skip(view.pending.len() as int).contains(
            (sources[at], Some(directory.push(names[at]))),
        ),
{
    let after = view.listed(names, sources, order);
    let children = child_items(directory, names, sources, order);
    law_listing_is_complete(names, order);
    assert(after.pending.take(view.pending.len() as int) == view.pending);
    assert(after.pending.skip(view.pending.len() as int) == children);
    assert(order.contains(at));
    let i = choose|i: int| 0 <= i < order.len() && order[i] == at;
    assert(children[order.len() - 1 - i] == (sources[at], Some(directory.push(names[at]))));
}

/// Of the contents of a directory, no name is looked at before one that stands before it.
pub proof fn law_contents_come_in_order(
    view: CaptureView,
    directory: Seq<Seq<u8>>,
    names: Seq<Seq<u8>>,
    sources: Seq<u64>,
    order: Seq<int>,
    sooner: int,
    later: int,
)
    requires
        view.open == Some(directory),
        names.len() == sources.len(),
        is_order(names, order),
        view.pending.len() <= later < sooner < view.pending.len() + names.len(),
    ensures
        ({
            let pending = view.listed(names, sources, order).pending;
            let first = pending[sooner].1->0.last();
            let second = pending[later].1->0.last();
            stands_before(first, second) || first == second
        }),
{
    let kept = view.pending.len() as int;
    let n = names.len() as int;
    let children = child_items(directory, names, sources, order);
    let a = order[n - 1 - (sooner - kept)];
    let b = order[n - 1 - (later - kept)];
    assert(children[sooner - kept] == (sources[a], Some(directory.push(names[a]))));
    assert(children[later - kept] == (sources[b], Some(directory.push(names[b]))));
    assert(directory.push(names[a]).last() == names[a]);
    assert(directory.push(names[b]).last() == names[b]);
    assert(crate::order::listed_before(names, a, b));
}

/// Names are ordered by their first different bytes, and a name comes before those that it
/// begins.
pub proof fn law_names_are_ordered_by_bytes(
    common: Seq<u8>,
    a: u8,
    rest_a: Seq<u8>,
    b: u8,
    rest_b: Seq<u8>,
)
    ensures
        a != b ==> stands_before(common.push(a) + rest_a, common.push(b) + rest_b) == (a < b),
        stands_before(common, common.push(b) + rest_b),
        !stands_before(common.push(b) + rest_b, common),
    decreases common.len(),
{
    let x = common.push(a) + rest_a;
    let y = common.push(b) + rest_b;
    if common.len() > 0 {
        let less = common.skip(1);
        law_names_are_ordered_by_bytes(less, a, rest_a, b, rest_b);
        assert(x.skip(1) == less.push(a) + rest_a);
        assert(y.skip(1) == less.push(b) + rest_b);
        assert(x[0] == common[0] && y[0] == common[0]);
    } else {
        assert(x[0] == a && y[0] == b);
    }
}

/// What is captured is announced as it is: the manifest holds every entry, in order, and
/// every time goes with its entry.
pub proof fn law_manifest_is_what_was_captured(entries: Seq<LocalView>, i: int)
    requires
        0 <= i < entries.len(),
    ensures
        manifest_of(entries).len() == entries.len(),
        manifest_of(entries)[i] == entries[i].entry,
        times_of(entries).len() == entries.len(),
        times_of(entries)[i] == entries[i].modified,
{
}

/// The same holds of captured files.
pub proof fn law_captured_files_are_announced(files: CapturedFiles, i: int)
    requires
        0 <= i < files.entries@.len(),
    ensures
        files.manifest().len() == files.entries@.len(),
        files.manifest()[i] == files.entries@[i].entry@,
        files.times().len() == files.entries@.len(),
        files.times()[i] == files.entries@[i].modified_nanos,
{
}

/// Copied paths are taken with their numbers and file names, in their order.
pub proof fn law_copied_paths_are_taken(roots: Seq<CopiedPath>, i: int)
    requires
        0 <= i < roots.len(),
    ensures
        copied_views(roots).len() == roots.len(),
        copied_views(roots)[i].0 == roots[i].source,
        roots[i].name matches Some(name) ==> copied_views(roots)[i].1 == Some(name@),
        roots[i].name is None ==> copied_views(roots)[i].1 is None,
{
}

} // verus!
