//! What becomes of a file transfer between devices that are connected directly.

use vstd::prelude::*;

use crate::direct::paths::{all_valid, components, joined, portable_all};
use crate::direct::receive::{
    entry_fault, entry_path, manifest_fault, manifest_summary, mode_changes, repeats, root_paths,
    started, tree_fault, ManifestError,
};
use crate::direct::wire::{file_numbers, total_size, EntryView};
use crate::manifest::{first_fault, lemma_all_clear, lemma_no_fault};
use crate::progress::FileView;
use crate::text::decimal;
use crate::units::bytes_text;
use crate::wire::TransferEntryKind;

verus! {

/// How many entries have permissions.
pub open spec fn with_mode(entries: Seq<EntryView>) -> nat
    decreases entries.len(),
{
    if entries.len() == 0 {
        0
    } else if entries[0].mode is Some {
        1 + with_mode(entries.skip(1))
    } else {
        with_mode(entries.skip(1))
    }
}

proof fn lemma_with_mode_push(entries: Seq<EntryView>, entry: EntryView)
    ensures
        with_mode(entries.push(entry)) == with_mode(entries) + if entry.mode is Some {
            1nat
        } else {
            0nat
        },
    decreases entries.len(),
{
    if entries.len() > 0 {
        assert(entries.push(entry).skip(1) == entries.skip(1).push(entry));
        lemma_with_mode_push(entries.skip(1), entry);
    } else {
        assert(entries.push(entry).skip(1) == Seq::<EntryView>::empty());
        assert(with_mode(Seq::<EntryView>::empty()) == 0);
    }
}

/// Permissions are restored as they were: every entry of the manifest that has some, be it
/// a file or a directory, is among what is restored, with its path and exactly its
/// permissions; the last entry comes first, so that the place of an entry is given by how
/// many behind it have permissions; and there is nothing else.
pub proof fn law_permissions_are_restored(entries: Seq<EntryView>)
    ensures
        mode_changes(entries).len() == with_mode(entries),
        forall|i: int|
            0 <= i < entries.len() ==> ((#[trigger] entries[i]).mode matches Some(mode) ==> {
                let at = with_mode(entries.skip(i + 1)) as int;
                at < mode_changes(entries).len() && mode_changes(entries)[at] == (
                    entry_path(entries[i]),
                    mode,
                )
            }),
    decreases entries.len(),
{
    if entries.len() > 0 {
        let before = entries.drop_last();
        let last = entries.last();
        law_permissions_are_restored(before);
        assert(entries == before.push(last));
        lemma_with_mode_push(before, last);
        let changes = mode_changes(entries);
        let rest = mode_changes(before);
        assert forall|i: int| 0 <= i < entries.len() implies ((
        #[trigger] entries[i]).mode matches Some(mode) ==> {
            let at = with_mode(entries.skip(i + 1)) as int;
            at < changes.len() && changes[at] == (entry_path(entries[i]), mode)
        }) by {
            if entries[i].mode is Some {
                if i < before.len() {
                    assert(before[i] == entries[i]);
                    assert(entries.skip(i + 1) == before.skip(i + 1).push(last));
                    lemma_with_mode_push(before.skip(i + 1), last);
                    let old = with_mode(before.skip(i + 1)) as int;
                    assert(rest[old] == (entry_path(entries[i]), entries[i].mode->0));
                } else {
                    assert(entries.skip(i + 1) == Seq::<EntryView>::empty());
                    assert(with_mode(Seq::<EntryView>::empty()) == 0);
                }
            }
        }
    }
}

/// The files of a manifest are numbered in its order: the numbers are those of the entries
/// that are files, all of them, each after the one before.
pub proof fn law_files_are_numbered_in_order(entries: Seq<EntryView>)
    ensures
        forall|n: int| #[trigger]
            file_numbers(entries).contains(n) <==> 0 <= n < entries.len() && entries[n].kind
                == TransferEntryKind::File,
        forall|a: int, b: int|
            0 <= a < b < file_numbers(entries).len() ==> #[trigger] file_numbers(entries)[a]
                < #[trigger] file_numbers(entries)[b],
    decreases entries.len(),
{
    if entries.len() > 0 {
        let before = entries.drop_last();
        let last = entries.len() - 1;
        law_files_are_numbered_in_order(before);
        let old = file_numbers(before);
        let all = file_numbers(entries);
        assert forall|n: int| #[trigger] all.contains(n) <==> 0 <= n < entries.len()
            && entries[n].kind == TransferEntryKind::File by {
            if all.contains(n) {
                let k = choose|k: int| 0 <= k < all.len() && all[k] == n;
                if k < old.len() {
                    assert(old[k] == n);
                    assert(old.contains(n));
                    assert(before[n] == entries[n]);
                }
            }
            if 0 <= n < entries.len() && entries[n].kind == TransferEntryKind::File {
                if n < last {
                    assert(before[n] == entries[n]);
                    assert(old.contains(n));
                    let k = choose|k: int| 0 <= k < old.len() && old[k] == n;
                    assert(all[k] == n);
                } else {
                    assert(all[all.len() - 1] == n);
                }
            }
        }
        assert forall|a: int, b: int| 0 <= a < b < all.len() implies #[trigger] all[a]
            < #[trigger] all[b] by {
            assert(old[a] == all[a]);
            assert(old.contains(old[a]));
            if b < old.len() {
                assert(old[b] == all[b]);
            }
        }
    }
}

/// What goes on the clipboard of a transfer are its paths of one component, in the order
/// of the manifest.
pub proof fn law_roots_are_the_top_level(a: Seq<EntryView>, entry: EntryView)
    ensures
        root_paths(Seq::<EntryView>::empty()).len() == 0,
        entry_path(entry).len() == 1 ==> root_paths(a.push(entry)) == root_paths(a).push(
            entry_path(entry),
        ),
        entry_path(entry).len() != 1 ==> root_paths(a.push(entry)) == root_paths(a),
{
    assert(a.push(entry).drop_last() == a);
}

/// A manifest announces the sum of what its entries announce.
pub proof fn law_total_is_the_sum(a: Seq<EntryView>, entry: EntryView)
    ensures
        total_size(Seq::<EntryView>::empty()) == 0,
        total_size(a.push(entry)) == total_size(a) + entry.size,
{
    assert(a.push(entry).drop_last() == a);
}

/// The components that an entry stands under.
pub open spec fn place(entry: EntryView) -> Seq<Seq<char>> {
    portable_all(components(entry.path))
}

/// An entry stands under the fit components of its path.
pub proof fn law_entry_stands_under_its_path(entry: EntryView)
    ensures
        entry_path(entry) == portable_all(components(entry.path)),
{
}

/// Whether every entry has a path, no two have the same, and no directory has a size.
pub open spec fn all_in_order(entries: Seq<EntryView>) -> bool {
    &&& forall|i: int|
        0 <= i < entries.len() ==> all_valid(components((#[trigger] entries[i]).path))
    &&& forall|i: int, j: int|
        0 <= i < j < entries.len() ==> joined(place(#[trigger] entries[i])) != joined(
            place(#[trigger] entries[j]),
        )
    &&& forall|i: int|
        0 <= i < entries.len() && (#[trigger] entries[i]).kind == TransferEntryKind::Directory
            ==> entries[i].size == 0
}

/// Whether some entry stands at the top.
pub open spec fn one_is_at_the_top(entries: Seq<EntryView>) -> bool {
    exists|i: int| 0 <= i < entries.len() && place(#[trigger] entries[i]).len() == 1
}

proof fn lemma_roots(entries: Seq<EntryView>)
    ensures
        root_paths(entries).len() > 0 <==> one_is_at_the_top(entries),
    decreases entries.len(),
{
    if entries.len() > 0 {
        let before = entries.drop_last();
        lemma_roots(before);
        if place(entries.last()).len() == 1 {
            assert(entries[entries.len() - 1] == entries.last());
        } else {
            if one_is_at_the_top(before) {
                let i = choose|i: int| 0 <= i < before.len() && place(#[trigger] before[i]).len()
                    == 1;
                assert(entries[i] == before[i]);
            }
            if one_is_at_the_top(entries) {
                let i = choose|i: int| 0 <= i < entries.len() && place(
                    #[trigger] entries[i],
                ).len() == 1;
                assert(before[i] == entries[i]);
            }
        }
    }
}

proof fn lemma_in_order(entries: Seq<EntryView>)
    ensures
        first_fault(entries.len() as int, entry_fault(entries)) is None <==> all_in_order(entries),
{
    let n = entries.len() as int;
    if first_fault(n, entry_fault(entries)) is None {
        lemma_no_fault(n, entry_fault(entries));
        assert forall|i: int| 0 <= i < n implies all_valid(
            components((#[trigger] entries[i]).path),
        ) by {
            assert(entry_fault(entries)(i) is None);
        }
        assert forall|i: int, j: int| 0 <= i < j < n implies joined(place(#[trigger] entries[i]))
            != joined(place(#[trigger] entries[j])) by {
            assert(entry_fault(entries)(j) is None);
            if joined(place(entries[i])) == joined(place(entries[j])) {
                assert(joined(entry_path(entries[i])) == joined(entry_path(entries[j])));
                assert(repeats(entries, j));
            }
        }
        assert forall|i: int| 0 <= i < n && (#[trigger] entries[i]).kind
            == TransferEntryKind::Directory implies entries[i].size == 0 by {
            assert(entry_fault(entries)(i) is None);
        }
    }
    if all_in_order(entries) {
        assert forall|i: int| 0 <= i < n implies #[trigger] entry_fault(entries)(i) is None by {
            assert(all_valid(components(entries[i].path)));
            assert(entries[i].kind == TransferEntryKind::Directory ==> entries[i].size == 0);
            if repeats(entries, i) {
                let j = choose|j: int| 0 <= j < i && joined(#[trigger] entry_path(entries[j]))
                    == joined(entry_path(entries[i]));
                assert(joined(place(entries[j])) != joined(place(entries[i])));
            }
        }
        lemma_all_clear(n, entry_fault(entries));
    }
}

/// A manifest is accepted if and only if it has an identifier and between one and a hundred
/// thousand entries of thirty-two gibibytes at most in all, every one has a path, no two
/// have the same, no directory has a size, and one stands at the top; and what is wrong is
/// told in this order.
pub proof fn law_manifests_that_are_accepted(id: Seq<char>, entries: Seq<EntryView>)
    ensures
        manifest_fault(id, entries) is None <==> {
            &&& 1 <= entries.len() <= 100_000
            &&& id.len() > 0
            &&& total_size(entries) <= 34_359_738_368
            &&& all_in_order(entries)
            &&& one_is_at_the_top(entries)
        },
        entries.len() == 0 ==> manifest_fault(id, entries) == Some(ManifestError::Empty),
        entries.len() > 100_000 ==> manifest_fault(id, entries) == Some(
            ManifestError::TooManyEntries,
        ),
        1 <= entries.len() <= 100_000 && id.len() == 0 ==> manifest_fault(id, entries) == Some(
            ManifestError::EmptyId,
        ),
        1 <= entries.len() <= 100_000 && id.len() > 0 && total_size(entries) > u64::MAX
            ==> manifest_fault(id, entries) == Some(ManifestError::SizeOverflow),
        1 <= entries.len() <= 100_000 && id.len() > 0 && 34_359_738_368 < total_size(entries)
            <= u64::MAX ==> manifest_fault(id, entries) == Some(ManifestError::TooLarge),
        1 <= entries.len() <= 100_000 && id.len() > 0 && total_size(entries) <= 34_359_738_368
            && all_in_order(entries) && !one_is_at_the_top(entries) ==> manifest_fault(id, entries)
            == Some(ManifestError::NoRoot),
{
    lemma_in_order(entries);
    lemma_roots(entries);
}

/// The first entry with a fault is told, with what is wrong with it.
pub proof fn law_first_fault_is_told(entries: Seq<EntryView>, i: int)
    requires
        0 <= i < entries.len() <= usize::MAX,
        all_in_order(entries.take(i)),
    ensures
        ({
            let told = tree_fault(entries);
            let repeated = exists|j: int|
                0 <= j < i && joined(place(#[trigger] entries[j])) == joined(place(entries[i]));
            &&& !all_valid(components(entries[i].path)) ==> told == Some(
                ManifestError::InvalidPath(i as usize),
            )
            &&& all_valid(components(entries[i].path)) && repeated ==> told == Some(
                ManifestError::DuplicatePath(i as usize),
            )
            &&& all_valid(components(entries[i].path)) && !repeated && entries[i].kind
                == TransferEntryKind::Directory && entries[i].size != 0 ==> told == Some(
                ManifestError::DirectorySize(i as usize),
            )
        }),
{
    let before = entries.take(i);
    lemma_in_order(before);
    lemma_no_fault(i, entry_fault(before));
    assert forall|k: int| 0 <= k < i implies #[trigger] entry_fault(entries)(k) is None by {
        assert(entry_fault(before)(k) is None);
        assert(before[k] == entries[k]);
        if repeats(entries, k) {
            let j = choose|j: int| 0 <= j < k && joined(#[trigger] entry_path(entries[j]))
                == joined(entry_path(entries[k]));
            assert(before[j] == entries[j]);
            assert(joined(entry_path(before[j])) == joined(entry_path(before[k])));
            assert(repeats(before, k));
        }
    }
    lemma_all_clear(i, entry_fault(entries));
    if exists|j: int|
        0 <= j < i && joined(place(#[trigger] entries[j])) == joined(place(entries[i])) {
        let j = choose|j: int|
            0 <= j < i && joined(place(#[trigger] entries[j])) == joined(place(entries[i]));
        assert(joined(entry_path(entries[j])) == joined(entry_path(entries[i])));
        assert(repeats(entries, i));
    }
    if repeats(entries, i) {
        let j = choose|j: int| 0 <= j < i && joined(#[trigger] entry_path(entries[j])) == joined(
            entry_path(entries[i]),
        );
        assert(joined(place(entries[j])) == joined(place(entries[i])));
    }
    if entry_fault(entries)(i) is Some {
        crate::manifest::lemma_fault_stays(entries.len() as int, i, entry_fault(entries));
    }
}

/// Every file of a manifest is awaited from its beginning, with its size.
pub proof fn law_every_file_is_awaited(directory: Seq<char>, entries: Seq<EntryView>, i: int)
    requires
        0 <= i < file_numbers(entries).len(),
    ensures
        started(directory, entries).directory == directory,
        started(directory, entries).entries == entries,
        started(directory, entries).files.len() == file_numbers(entries).len(),
        started(directory, entries).files[i] == (FileView {
            entry: file_numbers(entries)[i],
            expected: entries[file_numbers(entries)[i]].size as nat,
            received: Seq::<u8>::empty(),
            finished: false,
        }),
{
}

/// A transfer is told by the number of its files, that of its directories, and its size.
pub proof fn law_transfer_is_told(entries: Seq<EntryView>)
    ensures
        file_numbers(entries).len() <= entries.len(),
        manifest_summary(entries) == decimal(file_numbers(entries).len()) + " 个文件、"@
            + decimal((entries.len() - file_numbers(entries).len()) as nat) + " 个目录（"@
            + bytes_text(total_size(entries)) + "）"@,
    decreases entries.len(),
{
    if entries.len() > 0 {
        law_transfer_is_told(entries.drop_last());
    }
}

} // verus!
