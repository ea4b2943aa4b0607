//! Which manifests are accepted.

use vstd::prelude::*;

use crate::manifest::{
    below_file, entry_key, entry_path, first_fault, is_file_key, lemma_all_clear,
    lemma_fault_stays, lemma_no_fault, manifest_fault, parent_fault, path_fault, path_key, repeats,
    root_paths, size_fault, ManifestError,
};
use crate::paths::{all_valid, collision_key, components, joined, portable_all};
use crate::wire::{total_size, EntryView, TransferEntryKind};

verus! {

/// The components that an entry stands under.
pub open spec fn place(entry: EntryView) -> Seq<Seq<u8>> {
    portable_all(components(entry.path))
}

/// What a path collides by.
pub open spec fn key(path: Seq<Seq<u8>>) -> Seq<u8> {
    collision_key(joined(portable_all(path)))
}

/// Whether every entry has a path.
pub open spec fn all_have_paths(entries: Seq<EntryView>) -> bool {
    forall|i: int| 0 <= i < entries.len() ==> all_valid(components((#[trigger] entries[i]).path))
}

/// Whether no two entries collide.
pub open spec fn none_collide(entries: Seq<EntryView>) -> bool {
    forall|i: int, j: int|
        0 <= i < j < entries.len() ==> key(place(#[trigger] entries[i])) != key(
            place(#[trigger] entries[j]),
        )
}

/// Whether no entry goes through a file.
pub open spec fn none_goes_through_a_file(entries: Seq<EntryView>) -> bool {
    forall|i: int, j: int, k: int|
        #![trigger place(entries[i]).take(k), entries[j]]
        0 <= i < entries.len() && 0 <= j < entries.len() && 0 < k < place(entries[i]).len()
            && entries[j].kind == TransferEntryKind::File ==> key(place(entries[j])) != key(
            place(entries[i]).take(k),
        )
}

/// Whether no directory has a size.
pub open spec fn no_directory_has_a_size(entries: Seq<EntryView>) -> bool {
    forall|i: int|
        0 <= i < entries.len() && (#[trigger] entries[i]).kind == TransferEntryKind::Directory
            ==> entries[i].size == 0
}

/// Whether some entry stands at the top.
pub open spec fn one_is_at_the_top(entries: Seq<EntryView>) -> bool {
    exists|i: int| 0 <= i < entries.len() && place(#[trigger] entries[i]).len() == 1
}

proof fn lemma_roots(entries: Seq<EntryView>)
    ensures
        root_paths(entries).len() > 0 <==> one_is_at_the_top(entries),
    decreases entries.len(),
{
    if entries.len() > 0 {
        let before = entries.drop_last();
        lemma_roots(before);
        if place(entries.last()).len() == 1 {
            assert(entries[entries.len() - 1] == entries.last());
        } else {
            if one_is_at_the_top(before) {
                let i = choose|i: int| 0 <= i < before.len() && place(#[trigger] before[i]).len()
                    == 1;
                assert(entries[i] == before[i]);
            }
            if one_is_at_the_top(entries) {
                let i = choose|i: int| 0 <= i < entries.len() && place(
                    #[trigger] entries[i],
                ).len() == 1;
                assert(before[i] == entries[i]);
            }
        }
    }
}

proof fn lemma_paths(entries: Seq<EntryView>)
    ensures
        first_fault(entries.len() as int, path_fault(entries)) is None <==> all_have_paths(entries)
            && none_collide(entries),
{
    let n = entries.len() as int;
    if first_fault(n, path_fault(entries)) is None {
        lemma_no_fault(n, path_fault(entries));
        assert forall|i: int| 0 <= i < n implies all_valid(
            components((#[trigger] entries[i]).path),
        ) by {
            assert(path_fault(entries)(i) is None);
        }
        assert forall|i: int, j: int| 0 <= i < j < n implies key(place(#[trigger] entries[i]))
            != key(place(#[trigger] entries[j])) by {
            assert(path_fault(entries)(j) is None);
            if key(place(entries[i])) == key(place(entries[j])) {
                assert(entry_key(entries[i]) == entry_key(entries[j]));
                assert(repeats(entries, j));
            }
        }
    }
    if all_have_paths(entries) && none_collide(entries) {
        assert forall|i: int| 0 <= i < n implies #[trigger] path_fault(entries)(i) is None by {
            assert(all_valid(components(entries[i].path)));
            if repeats(entries, i) {
                let j = choose|j: int| 0 <= j < i && #[trigger] entry_key(entries[j]) == entry_key(
                    entries[i],
                );
                assert(key(place(entries[j])) != key(place(entries[i])));
            }
        }
        lemma_all_clear(n, path_fault(entries));
    }
}

proof fn lemma_parents(entries: Seq<EntryView>)
    ensures
        first_fault(entries.len() as int, parent_fault(entries)) is None
            <==> none_goes_through_a_file(entries),
{
    let n = entries.len() as int;
    if first_fault(n, parent_fault(entries)) is None {
        lemma_no_fault(n, parent_fault(entries));
        assert forall|i: int, j: int, k: int|
            #![trigger place(entries[i]).take(k), entries[j]]
            0 <= i < n && 0 <= j < n && 0 < k < place(entries[i]).len() && entries[j].kind
                == TransferEntryKind::File implies key(place(entries[j])) != key(
            place(entries[i]).take(k),
        ) by {
            assert(parent_fault(entries)(i) is None);
            if key(place(entries[j])) == key(place(entries[i]).take(k)) {
                let wanted = path_key(entry_path(entries[i]).take(k));
                assert(entry_key(entries[j]) == wanted);
                assert(is_file_key(entries, wanted));
                assert(below_file(entries, entry_path(entries[i])));
            }
        }
    }
    if none_goes_through_a_file(entries) {
        assert forall|i: int| 0 <= i < n implies #[trigger] parent_fault(entries)(i) is None by {
            let path = entry_path(entries[i]);
            if below_file(entries, path) {
                let k = choose|k: int| 0 < k < path.len() && is_file_key(
                    entries,
                    #[trigger] path_key(path.take(k)),
                );
                let wanted = path_key(path.take(k));
                let j = choose|j: int| 0 <= j < n && #[trigger] entry_key(entries[j]) == wanted
                    && entries[j].kind == TransferEntryKind::File;
                assert(key(place(entries[j])) != key(place(entries[i]).take(k)));
            }
        }
        lemma_all_clear(n, parent_fault(entries));
    }
}

proof fn lemma_sizes(entries: Seq<EntryView>)
    ensures
        first_fault(entries.len() as int, size_fault(entries)) is None <==> no_directory_has_a_size(
            entries,
        ),
{
    let n = entries.len() as int;
    if first_fault(n, size_fault(entries)) is None {
        lemma_no_fault(n, size_fault(entries));
        assert forall|i: int| 0 <= i < n && (#[trigger] entries[i]).kind
            == TransferEntryKind::Directory implies entries[i].size == 0 by {
            assert(size_fault(entries)(i) is None);
        }
    }
    if no_directory_has_a_size(entries) {
        assert forall|i: int| 0 <= i < n implies #[trigger] size_fault(entries)(i) is None by {
            assert(entries[i].kind == TransferEntryKind::Directory ==> entries[i].size == 0);
        }
        lemma_all_clear(n, size_fault(entries));
    }
}

/// A manifest is accepted if and only if it has between one and a hundred thousand entries
/// of thirty-two gibibytes at most in all, every one has a path, no two collide, none goes
/// through a file, no directory has a size, and one stands at the top.
pub proof fn law_manifests_that_are_accepted(entries: Seq<EntryView>)
    ensures
        manifest_fault(entries) is None <==> {
            &&& 1 <= entries.len() <= 100_000
            &&& total_size(entries) <= 34_359_738_368
            &&& all_have_paths(entries)
            &&& none_collide(entries)
            &&& none_goes_through_a_file(entries)
            &&& no_directory_has_a_size(entries)
            &&& one_is_at_the_top(entries)
        },
{
    lemma_paths(entries);
    lemma_parents(entries);
    lemma_sizes(entries);
    lemma_roots(entries);
}

/// What is wrong with a manifest is told by the first thing that is, in this order: its
/// size, its paths, what goes through a file, the sizes of directories, its top.
pub proof fn law_what_is_wrong_is_told(entries: Seq<EntryView>)
    ensures
        entries.len() == 0 ==> manifest_fault(entries) == Some(ManifestError::Empty),
        entries.len() > 100_000 ==> manifest_fault(entries) == Some(ManifestError::TooManyEntries),
        1 <= entries.len() <= 100_000 && total_size(entries) > u64::MAX ==> manifest_fault(entries)
            == Some(ManifestError::SizeOverflow),
        1 <= entries.len() <= 100_000 && 34_359_738_368 < total_size(entries) <= u64::MAX
            ==> manifest_fault(entries) == Some(ManifestError::TooLarge),
        1 <= entries.len() <= 100_000 && total_size(entries) <= 34_359_738_368 ==> {
            &&& !(all_have_paths(entries) && none_collide(entries)) ==> {
                ||| manifest_fault(entries) matches Some(ManifestError::InvalidPath(_))
                ||| manifest_fault(entries) matches Some(ManifestError::DuplicatePath(_))
            }
            &&& all_have_paths(entries) && none_collide(entries) && !none_goes_through_a_file(
                entries,
            ) ==> (manifest_fault(entries) matches Some(ManifestError::FileAsParent(_)))
            &&& all_have_paths(entries) && none_collide(entries) && none_goes_through_a_file(
                entries,
            ) && !no_directory_has_a_size(entries) ==> (manifest_fault(entries) matches Some(
                ManifestError::DirectorySize(_),
            ))
            &&& all_have_paths(entries) && none_collide(entries) && none_goes_through_a_file(
                entries,
            ) && no_directory_has_a_size(entries) && !one_is_at_the_top(entries)
                ==> manifest_fault(entries) == Some(ManifestError::NoRoot)
        },
{
    let n = entries.len() as int;
    lemma_paths(entries);
    lemma_parents(entries);
    lemma_sizes(entries);
    lemma_roots(entries);
    lemma_fault_is_of_some(n, path_fault(entries));
    lemma_fault_is_of_some(n, parent_fault(entries));
    lemma_fault_is_of_some(n, size_fault(entries));
}

proof fn lemma_fault_is_of_some(n: int, fault: spec_fn(int) -> Option<ManifestError>)
    requires
        n >= 0,
    ensures
        first_fault(n, fault) is Some ==> exists|i: int|
            0 <= i < n && #[trigger] fault(i) == first_fault(n, fault),
    decreases n,
{
    if n > 0 {
        lemma_fault_is_of_some(n - 1, fault);
        if first_fault(n - 1, fault) is Some {
            let i = choose|i: int| 0 <= i < n - 1 && #[trigger] fault(i) == first_fault(
                n - 1,
                fault,
            );
            assert(fault(i) == first_fault(n, fault));
        } else {
            assert(fault(n - 1) == first_fault(n, fault));
        }
    }
}

/// Of several faults the first is told, and where there is none nothing is.
pub proof fn law_first_of_faults_is_told<E>(n: int, i: int, fault: spec_fn(int) -> Option<E>)
    requires
        0 <= i <= n,
        forall|k: int| 0 <= k < i ==> #[trigger] fault(k) is None,
    ensures
        i == n ==> first_fault(n, fault) is None,
        i < n && fault(i) is Some ==> first_fault(n, fault) == fault(i),
{
    lemma_all_clear(i, fault);
    if i < n && fault(i) is Some {
        lemma_fault_stays(n, i, fault);
    }
}

/// What is wrong with one entry is told with its number: first that it has no path, then that
/// it collides with one before.
pub proof fn law_wrong_paths_are_told(entries: Seq<EntryView>, i: int)
    requires
        0 <= i < entries.len() <= usize::MAX,
    ensures
        ({
            let told = path_fault(entries)(i);
            let repeated = exists|j: int|
                0 <= j < i && key(place(#[trigger] entries[j])) == key(place(entries[i]));
            &&& !all_valid(components(entries[i].path)) ==> (
            told matches Some(ManifestError::InvalidPath(which)) && which == i)
            &&& all_valid(components(entries[i].path)) && repeated ==> (
            told matches Some(ManifestError::DuplicatePath(which)) && which == i)
            &&& all_valid(components(entries[i].path)) && !repeated ==> told is None
        }),
{
    if exists|j: int| 0 <= j < i && key(place(#[trigger] entries[j])) == key(place(entries[i])) {
        let j = choose|j: int|
            0 <= j < i && key(place(#[trigger] entries[j])) == key(place(entries[i]));
        assert(entry_key(entries[j]) == entry_key(entries[i]));
        assert(repeats(entries, i));
    }
    if repeats(entries, i) {
        let j = choose|j: int| 0 <= j < i && #[trigger] entry_key(entries[j]) == entry_key(
            entries[i],
        );
        assert(key(place(entries[j])) == key(place(entries[i])));
    }
}

/// An entry that goes through a file is told with its number, and so is a directory with a
/// size.
pub proof fn law_wrong_places_and_sizes_are_told(entries: Seq<EntryView>, i: int)
    requires
        0 <= i < entries.len() <= usize::MAX,
    ensures
        ({
            let told = parent_fault(entries)(i);
            let through = exists|j: int, k: int|
                #![trigger place(entries[i]).take(k), entries[j]]
                0 <= j < entries.len() && 0 < k < place(entries[i]).len() && entries[j].kind
                    == TransferEntryKind::File && key(place(entries[j])) == key(
                    place(entries[i]).take(k),
                );
            &&& through ==> (told matches Some(ManifestError::FileAsParent(which)) && which == i)
            &&& !through ==> told is None
        }),
        ({
            let told = size_fault(entries)(i);
            let sized = entries[i].kind == TransferEntryKind::Directory && entries[i].size != 0;
            &&& sized ==> (told matches Some(ManifestError::DirectorySize(which)) && which == i)
            &&& !sized ==> told is None
        }),
{
    let path = entry_path(entries[i]);
    if exists|j: int, k: int|
        #![trigger place(entries[i]).take(k), entries[j]]
        0 <= j < entries.len() && 0 < k < place(entries[i]).len() && entries[j].kind
            == TransferEntryKind::File && key(place(entries[j])) == key(
            place(entries[i]).take(k),
        ) {
        let (j, k) = choose|j: int, k: int|
            #![trigger place(entries[i]).take(k), entries[j]]
            0 <= j < entries.len() && 0 < k < place(entries[i]).len() && entries[j].kind
                == TransferEntryKind::File && key(place(entries[j])) == key(
                place(entries[i]).take(k),
            );
        let wanted = path_key(path.take(k));
        assert(entry_key(entries[j]) == wanted);
        assert(is_file_key(entries, wanted));
        assert(below_file(entries, path));
    }
    if below_file(entries, path) {
        let k = choose|k: int| 0 < k < path.len() && is_file_key(
            entries,
            #[trigger] path_key(path.take(k)),
        );
        let wanted = path_key(path.take(k));
        let j = choose|j: int| 0 <= j < entries.len() && #[trigger] entry_key(entries[j]) == wanted
            && entries[j].kind == TransferEntryKind::File;
        assert(key(place(entries[j])) == key(place(entries[i]).take(k)));
    }
}

} // verus!
