//! Which manifests a device accepts.

use vstd::hash_map::StringHashMap;
use vstd::prelude::*;

use crate::paths::{
    all_valid, collision_key, components, joined, law_safe_path_stays_inside,
    normalized_collision_key, portable_all, safe_relative_path, RelativePath,
};
use crate::text::string_of;
use crate::wire::{
    checked_total, entry_views, total_size, EntryView, TransferEntry, TransferEntryKind, MAX_MANIFEST_ENTRIES,
    MAX_TRANSFER_BYTES,
};

verus! {

/// Why a manifest is refused; a number is that of the entry at fault.
#[derive(Debug, Clone, Copy, PartialEq, Eq, Structural)]
pub enum ManifestError {
    Empty,
    TooManyEntries,
    SizeOverflow,
    TooLarge,
    InvalidPath(usize),
    DuplicatePath(usize),
    FileAsParent(usize),
    DirectorySize(usize),
    NoRoot,
}

/// Where an entry goes: the components of its path in their portable form.
pub open spec fn entry_path(entry: EntryView) -> Seq<Seq<u8>> {
    portable_all(components(entry.path))
}

/// The key under which a list of components collides.
pub open spec fn path_key(path: Seq<Seq<u8>>) -> Seq<u8> {
    collision_key(joined(portable_all(path)))
}

/// The key under which an entry collides.
pub open spec fn entry_key(entry: EntryView) -> Seq<u8> {
    path_key(entry_path(entry))
}

/// The first fault among the first `n` places.
pub open spec fn first_fault<E>(n: int, fault: spec_fn(int) -> Option<E>) -> Option<E>
    decreases n,
{
    if n <= 0 {
        None
    } else {
        match first_fault(n - 1, fault) {
            Some(error) => Some(error),
            None => fault(n - 1),
        }
    }
}

/// Whether an earlier entry has the key of entry `i`.
pub open spec fn repeats(entries: Seq<EntryView>, i: int) -> bool {
    exists|j: int| 0 <= j < i && #[trigger] entry_key(entries[j]) == entry_key(entries[i])
}

/// An entry whose path is invalid, or taken by an earlier entry.
pub open spec fn path_fault(entries: Seq<EntryView>) -> spec_fn(int) -> Option<ManifestError> {
    |i: int|
        if !all_valid(components(entries[i].path)) {
            Some(ManifestError::InvalidPath(i as usize))
        } else if repeats(entries, i) {
            Some(ManifestError::DuplicatePath(i as usize))
        } else {
            None
        }
}

/// Whether some entry is a file and has this key.
pub open spec fn is_file_key(entries: Seq<EntryView>, key: Seq<u8>) -> bool {
    exists|j: int|
        0 <= j < entries.len() && #[trigger] entry_key(entries[j]) == key && entries[j].kind
            == TransferEntryKind::File
}

/// Whether one of the directories on the way to a path is a file of the manifest.
pub open spec fn below_file(entries: Seq<EntryView>, path: Seq<Seq<u8>>) -> bool {
    exists|k: int| 0 < k < path.len() && is_file_key(entries, #[trigger] path_key(path.take(k)))
}

/// An entry that lies below a file.
pub open spec fn parent_fault(entries: Seq<EntryView>) -> spec_fn(int) -> Option<
    ManifestError,
> {
    |i: int|
        if below_file(entries, entry_path(entries[i])) {
            Some(ManifestError::FileAsParent(i as usize))
        } else {
            None
        }
}

/// A directory that announces a size.
pub open spec fn size_fault(entries: Seq<EntryView>) -> spec_fn(int) -> Option<ManifestError> {
    |i: int|
        if entries[i].kind == TransferEntryKind::Directory && entries[i].size != 0 {
            Some(ManifestError::DirectorySize(i as usize))
        } else {
            None
        }
}

/// The top-level paths, in the order of the manifest.
pub open spec fn root_paths(entries: Seq<EntryView>) -> Seq<Seq<Seq<u8>>>
    decreases entries.len(),
{
    if entries.len() == 0 {
        seq![]
    } else {
        let path = entry_path(entries.last());
        let before = root_paths(entries.drop_last());
        if path.len() == 1 {
            before.push(path)
        } else {
            before
        }
    }
}

/// The entries that are files, by their number, in the order of the manifest.
pub open spec fn file_numbers(entries: Seq<EntryView>) -> Seq<int>
    decreases entries.len(),
{
    if entries.len() == 0 {
        seq![]
    } else {
        let before = file_numbers(entries.drop_last());
        match entries.last().kind {
            TransferEntryKind::File => before.push(entries.len() - 1),
            TransferEntryKind::Directory => before,
        }
    }
}

/// What is wrong with the count or the sizes of a manifest.
pub open spec fn bulk_fault(entries: Seq<EntryView>) -> Option<ManifestError> {
    if entries.len() == 0 {
        Some(ManifestError::Empty)
    } else if entries.len() > MAX_MANIFEST_ENTRIES {
        Some(ManifestError::TooManyEntries)
    } else if total_size(entries) > u64::MAX {
        Some(ManifestError::SizeOverflow)
    } else if total_size(entries) > MAX_TRANSFER_BYTES {
        Some(ManifestError::TooLarge)
    } else {
        None
    }
}

/// What is wrong with the paths of a manifest.
pub open spec fn tree_fault(entries: Seq<EntryView>) -> Option<ManifestError> {
    let n = entries.len() as int;
    if first_fault(n, path_fault(entries)) is Some {
        first_fault(n, path_fault(entries))
    } else if first_fault(n, parent_fault(entries)) is Some {
        first_fault(n, parent_fault(entries))
    } else if first_fault(n, size_fault(entries)) is Some {
        first_fault(n, size_fault(entries))
    } else if root_paths(entries).len() == 0 {
        Some(ManifestError::NoRoot)
    } else {
        None
    }
}

/// Why a manifest is refused, if it is.
pub open spec fn manifest_fault(entries: Seq<EntryView>) -> Option<ManifestError> {
    match bulk_fault(entries) {
        Some(error) => Some(error),
        None => tree_fault(entries),
    }
}

/// No fault among the first `n` places means that each of them has none.
pub proof fn lemma_no_fault<E>(n: int, fault: spec_fn(int) -> Option<E>)
    requires
        first_fault(n, fault) is None,
    ensures
        forall|i: int| 0 <= i < n ==> #[trigger] fault(i) is None,
    decreases n,
{
    if n > 0 {
        lemma_no_fault(n - 1, fault);
    }
}

/// Where no place has a fault there is no first one.
pub proof fn lemma_all_clear<E>(n: int, fault: spec_fn(int) -> Option<E>)
    requires
        forall|i: int| 0 <= i < n ==> #[trigger] fault(i) is None,
    ensures
        first_fault(n, fault) is None,
    decreases n,
{
    if n > 0 {
        lemma_all_clear(n - 1, fault);
    }
}

/// A fault behind places that have none is the first.
pub proof fn lemma_fault_stays<E>(n: int, i: int, fault: spec_fn(int) -> Option<E>)
    requires
        0 <= i < n,
        first_fault(i, fault) is None,
        fault(i) is Some,
    ensures
        first_fault(n, fault) == fault(i),
    decreases n,
{
    if i < n - 1 {
        lemma_fault_stays(n - 1, i, fault);
    }
}

/// A byte string as a string of characters, one for each byte.
pub open spec fn byte_chars(bytes: Seq<u8>) -> Seq<char> {
    bytes.map_values(|b: u8| b as char)
}

/// Different byte strings give different strings of characters.
pub proof fn lemma_byte_chars_injective(a: Seq<u8>, b: Seq<u8>)
    requires
        byte_chars(a) == byte_chars(b),
    ensures
        a == b,
{
    assert(a.len() == byte_chars(a).len());
    assert(b.len() == byte_chars(b).len());
    assert forall|i: int| 0 <= i < a.len() implies a[i] == b[i] by {
        assert(byte_chars(a)[i] == a[i] as char);
        assert(byte_chars(b)[i] == b[i] as char);
    }
    assert(a == b);
}

/// Writes a byte string as one character for each byte.
pub fn key_text(bytes: &[u8]) -> (text: String)
    ensures
        text@ == byte_chars(bytes@),
{
    let mut chars: Vec<char> = Vec::new();
    let mut i: usize = 0;
    while i < bytes.len()
        invariant
            i <= bytes@.len(),
            chars@ == byte_chars(bytes@).take(i as int),
        decreases bytes@.len() - i,
    {
        chars.push(bytes[i] as char);
        proof {
            assert(byte_chars(bytes@).take(i as int + 1) == byte_chars(bytes@).take(i as int).push(
                bytes@[i as int] as char,
            ));
        }
        i += 1;
    }
    proof {
        assert(byte_chars(bytes@).take(bytes@.len() as int) == byte_chars(bytes@));
    }
    string_of(chars.as_slice())
}

/// The views of a list of paths.
pub open spec fn path_views(paths: Seq<RelativePath>) -> Seq<Seq<Seq<u8>>> {
    paths.map_values(|p: RelativePath| p@)
}

/// Where the first `n` entries go.
pub open spec fn entry_paths(entries: Seq<EntryView>) -> Seq<Seq<Seq<u8>>> {
    entries.map_values(|e: EntryView| entry_path(e))
}

/// Whether the map holds the kinds of these entries, under their keys.
pub open spec fn kinds_of(
    kinds: Map<Seq<char>, TransferEntryKind>,
    entries: Seq<EntryView>,
) -> bool {
    &&& forall|j: int|
        0 <= j < entries.len() ==> kinds.contains_key(
            byte_chars(#[trigger] entry_key(entries[j])),
        ) && kinds[byte_chars(entry_key(entries[j]))] == entries[j].kind
    &&& forall|text: Seq<char>| #[trigger]
        kinds.contains_key(text) ==> exists|j: int|
            0 <= j < entries.len() && text == byte_chars(#[trigger] entry_key(entries[j]))
}

/// A path from the wire has a key.
pub proof fn lemma_entry_path_valid(entry: EntryView)
    requires
        all_valid(components(entry.path)),
    ensures
        entry_path(entry).len() > 0,
        all_valid(entry_path(entry)),
{
    law_safe_path_stays_inside(entry.path);
    let path = entry_path(entry);
    assert forall|i: int| 0 <= i < path.len() implies !crate::paths::invalid(
        #[trigger] path[i],
    ) by {
        assert(crate::paths::safe(path[i]));
    }
}

/// Reads the paths of a manifest, and notes each entry's kind under its key.
fn read_paths(entries: &Vec<TransferEntry>) -> (r: Result<
    (Vec<RelativePath>, StringHashMap<TransferEntryKind>),
    ManifestError,
>)
    ensures
        ({
            let all = entry_views(entries@);
            let fault = first_fault(all.len() as int, path_fault(all));
            match r {
                Ok((paths, kinds)) => {
                    &&& fault is None
                    &&& path_views(paths@) == entry_paths(all)
                    &&& kinds_of(kinds@, all)
                },
                Err(error) => fault == Some(error),
            }
        }),
{
    let mut paths: Vec<RelativePath> = Vec::new();
    let mut kinds: StringHashMap<TransferEntryKind> = StringHashMap::new();
    let ghost all = entry_views(entries@);
    let ghost n = all.len() as int;
    let mut i: usize = 0;
    proof {
        assert(path_views(paths@) == entry_paths(all).take(0));
    }
    while i < entries.len()
        invariant
            all == entry_views(entries@),
            n == all.len(),
            i <= n,
            first_fault(i as int, path_fault(all)) is None,
            path_views(paths@) == entry_paths(all).take(i as int),
            kinds_of(kinds@, all.take(i as int)),
        decreases n - i,
    {
        let ghost fault = path_fault(all);
        let ghost before = all.take(i as int);
        let ghost after = all.take(i as int + 1);
        let entry = &entries[i];
        let relative = match safe_relative_path(entry.path.as_slice()) {
            Ok(relative) => relative,
            Err(_) => {
                proof {
                    lemma_fault_stays(n, i as int, fault);
                }
                return Err(ManifestError::InvalidPath(i));
            },
        };
        proof {
            lemma_entry_path_valid(all[i as int]);
        }
        let key = match normalized_collision_key(&relative) {
            Ok(key) => key,
            Err(_) => {
                return Err(ManifestError::InvalidPath(i));
            },
        };
        let text = key_text(key.as_slice());
        proof {
            assert(key@ == entry_key(all[i as int]));
            if kinds@.contains_key(text@) {
                let j = choose|j: int|
                    0 <= j < before.len() && text@ == byte_chars(#[trigger] entry_key(before[j]));
                lemma_byte_chars_injective(key@, entry_key(before[j]));
                assert(entry_key(all[j]) == entry_key(all[i as int]));
                assert(repeats(all, i as int));
            } else if repeats(all, i as int) {
                let j = choose|j: int|
                    0 <= j < i && #[trigger] entry_key(all[j]) == entry_key(all[i as int]);
                assert(before[j] == all[j]);
                assert(kinds@.contains_key(byte_chars(entry_key(before[j]))));
            }
        }
        if kinds.contains_key(text.as_str()) {
            proof {
                lemma_fault_stays(n, i as int, fault);
            }
            return Err(ManifestError::DuplicatePath(i));
        }
        let ghost old_kinds = kinds@;
        kinds.insert(text, entry.kind);
        let ghost old_paths = paths@;
        paths.push(relative);
        proof {
            assert forall|j: int| 0 <= j < after.len() implies kinds@.contains_key(
                byte_chars(#[trigger] entry_key(after[j])),
            ) && kinds@[byte_chars(entry_key(after[j]))] == after[j].kind by {
                if j < i {
                    assert(after[j] == before[j]);
                    assert(old_kinds.contains_key(byte_chars(entry_key(before[j]))));
                }
            }
            assert forall|t: Seq<char>| #[trigger] kinds@.contains_key(t) implies exists|j: int|
                0 <= j < after.len() && t == byte_chars(#[trigger] entry_key(after[j])) by {
                if t == byte_chars(key@) {
                    assert(after[i as int] == all[i as int]);
                    assert(t == byte_chars(entry_key(after[i as int])));
                } else {
                    assert(old_kinds.contains_key(t));
                    let j = choose|j: int|
                        0 <= j < before.len() && t == byte_chars(#[trigger] entry_key(before[j]));
                    assert(after[j] == before[j]);
                    assert(t == byte_chars(entry_key(after[j])));
                }
            }
            assert(path_views(paths@) == path_views(old_paths).push(relative@));
            assert(entry_paths(all).take(i as int + 1) == entry_paths(all).take(i as int).push(
                entry_path(all[i as int]),
            ));
        }
        i += 1;
    }
    proof {
        assert(all.take(n) == all);
        assert(entry_paths(all).take(n) == entry_paths(all));
    }
    Ok((paths, kinds))
}

/// Whether one of the directories on the way to a path is a file of the manifest.
fn is_below_file(
    path: &RelativePath,
    kinds: &StringHashMap<TransferEntryKind>,
    Ghost(entries): Ghost<Seq<EntryView>>,
) -> (r: bool)
    requires
        kinds_of(kinds@, entries),
        all_valid(path@),
    ensures
        r == below_file(entries, path@),
{
    let ghost whole = path@;
    let mut ancestor = path.copy();
    let mut at: usize = path.components.len();
    proof {
        assert(whole.take(whole.len() as int) == whole);
    }
    while at > 1
        invariant
            whole == path@,
            at <= whole.len(),
            at > 0 ==> ancestor@ == whole.take(at as int),
            ancestor.components@.len() == at,
            all_valid(whole),
            kinds_of(kinds@, entries),
            forall|k: int|
                at <= k < whole.len() && 0 < k ==> !is_file_key(
                    entries,
                    #[trigger] path_key(whole.take(k)),
                ),
        decreases at,
    {
        ancestor.components.pop();
        at -= 1;
        proof {
            assert(ancestor@ == whole.take(at as int));
            assert forall|i: int| 0 <= i < ancestor@.len() implies !crate::paths::invalid(
                #[trigger] ancestor@[i],
            ) by {
                assert(ancestor@[i] == whole[i]);
            }
        }
        let key = match normalized_collision_key(&ancestor) {
            Ok(key) => key,
            Err(_) => {
                return false;
            },
        };
        let text = key_text(key.as_slice());
        proof {
            assert(key@ == path_key(whole.take(at as int)));
            assert forall|j: int|
                0 <= j < entries.len() && #[trigger] entry_key(entries[j])
                    == key@ implies kinds@.contains_key(text@) && kinds@[text@]
                == entries[j].kind by {}
            if kinds@.contains_key(text@) {
                let j = choose|j: int|
                    0 <= j < entries.len() && text@ == byte_chars(#[trigger] entry_key(entries[j]));
                lemma_byte_chars_injective(key@, entry_key(entries[j]));
            }
        }
        if let Some(kind) = kinds.get(text.as_str()) {
            if *kind == TransferEntryKind::File {
                proof {
                    assert(is_file_key(entries, path_key(whole.take(at as int))));
                }
                return true;
            }
        }
    }
    false
}

/// Checks the paths of a manifest and says where each entry goes.
pub fn check_tree(entries: &Vec<TransferEntry>) -> (r: Result<Vec<RelativePath>, ManifestError>)
    ensures
        r is Ok <==> tree_fault(entry_views(entries@)) is None,
        r matches Ok(paths) ==> path_views(paths@) == entry_paths(entry_views(entries@)),
        r matches Err(error) ==> tree_fault(entry_views(entries@)) == Some(error),
{
    let ghost all = entry_views(entries@);
    let ghost n = all.len() as int;
    let (paths, kinds) = match read_paths(entries) {
        Ok(read) => read,
        Err(error) => {
            return Err(error);
        },
    };
    proof {
        lemma_no_fault(n, path_fault(all));
        assert(paths@.len() == path_views(paths@).len());
        assert(entry_paths(all).len() == n);
    }
    let mut i: usize = 0;
    while i < entries.len()
        invariant
            all == entry_views(entries@),
            n == all.len(),
            i <= n,
            paths@.len() == n,
            path_views(paths@) == entry_paths(all),
            kinds_of(kinds@, all),
            forall|k: int| 0 <= k < n ==> #[trigger] path_fault(all)(k) is None,
            first_fault(n, path_fault(all)) is None,
            first_fault(i as int, parent_fault(all)) is None,
        decreases n - i,
    {
        proof {
            assert(path_fault(all)(i as int) is None);
            lemma_entry_path_valid(all[i as int]);
            assert(path_views(paths@)[i as int] == entry_paths(all)[i as int]);
        }
        if is_below_file(&paths[i], &kinds, Ghost(all)) {
            proof {
                lemma_fault_stays(n, i as int, parent_fault(all));
            }
            return Err(ManifestError::FileAsParent(i));
        }
        i += 1;
    }
    let mut roots: bool = false;
    let mut i: usize = 0;
    while i < entries.len()
        invariant
            all == entry_views(entries@),
            n == all.len(),
            i <= n,
            paths@.len() == n,
            path_views(paths@) == entry_paths(all),
            first_fault(n, path_fault(all)) is None,
            first_fault(n, parent_fault(all)) is None,
            first_fault(i as int, size_fault(all)) is None,
            roots == (root_paths(all.take(i as int)).len() > 0),
        decreases n - i,
    {
        proof {
            assert(path_views(paths@)[i as int] == entry_paths(all)[i as int]);
            assert(all.take(i as int + 1).drop_last() == all.take(i as int));
        }
        if paths[i].components.len() == 1 {
            roots = true;
        }
        if entries[i].kind == TransferEntryKind::Directory && entries[i].size != 0 {
            proof {
                lemma_fault_stays(n, i as int, size_fault(all));
            }
            return Err(ManifestError::DirectorySize(i));
        }
        i += 1;
    }
    proof {
        assert(all.take(n) == all);
    }
    if !roots {
        return Err(ManifestError::NoRoot);
    }
    Ok(paths)
}

/// Checks the count and the sizes of a manifest.
pub fn check_bulk(entries: &Vec<TransferEntry>) -> (r: Result<u64, ManifestError>)
    ensures
        r is Ok <==> bulk_fault(entry_views(entries@)) is None,
        r matches Ok(total) ==> total == total_size(entry_views(entries@)),
        r matches Err(error) ==> bulk_fault(entry_views(entries@)) == Some(error),
{
    if entries.len() == 0 {
        return Err(ManifestError::Empty);
    }
    if entries.len() > MAX_MANIFEST_ENTRIES {
        return Err(ManifestError::TooManyEntries);
    }
    match checked_total(entries) {
        None => Err(ManifestError::SizeOverflow),
        Some(total) => {
            if total > MAX_TRANSFER_BYTES {
                Err(ManifestError::TooLarge)
            } else {
                Ok(total)
            }
        },
    }
}

/// A manifest that is accepted is a tree: its paths lead to places of their own, in any
/// case of letters, nothing lies below a file, and directories announce no bytes.
pub proof fn law_accepted_manifest_is_a_tree(entries: Seq<EntryView>)
    requires
        manifest_fault(entries) is None,
    ensures
        forall|i: int| 0 <= i < entries.len() ==> all_valid(components((#[trigger] entries[i]).path)),
        forall|i: int, j: int|
            0 <= i < j < entries.len() ==> entry_key(#[trigger] entries[i]) != entry_key(
                #[trigger] entries[j],
            ),
        forall|i: int|
            0 <= i < entries.len() ==> !below_file(entries, entry_path(#[trigger] entries[i])),
        forall|i: int|
            0 <= i < entries.len() && (#[trigger] entries[i]).kind == TransferEntryKind::Directory
                ==> entries[i].size == 0,
        root_paths(entries).len() > 0,
{
    let n = entries.len() as int;
    lemma_no_fault(n, path_fault(entries));
    lemma_no_fault(n, parent_fault(entries));
    lemma_no_fault(n, size_fault(entries));
    assert forall|i: int| 0 <= i < n implies all_valid(components((#[trigger] entries[i]).path)) by {
        assert(path_fault(entries)(i) is None);
    }
    assert forall|i: int, j: int| 0 <= i < j < n implies entry_key(#[trigger] entries[i])
        != entry_key(#[trigger] entries[j]) by {
        assert(path_fault(entries)(j) is None);
        if entry_key(entries[i]) == entry_key(entries[j]) {
            assert(repeats(entries, j));
        }
    }
    assert forall|i: int| 0 <= i < n implies !below_file(
        entries,
        entry_path(#[trigger] entries[i]),
    ) by {
        assert(parent_fault(entries)(i) is None);
    }
    assert forall|i: int|
        0 <= i < n && (#[trigger] entries[i]).kind == TransferEntryKind::Directory implies entries[i].size
        == 0 by {
        assert(size_fault(entries)(i) is None);
    }
}

} // verus!
