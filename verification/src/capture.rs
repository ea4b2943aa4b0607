//! Capturing copied files: which of them go into the manifest, under which paths
//! and in which order.
//!
//! The file system is looked at from outside. A capture says what to look at
//! next, and is told what is there.

use vstd::hash_set::StringHashSet;
use vstd::prelude::*;

use crate::fingerprint::{manifest_hash, manifest_identity};
use crate::manifest::{
    below_file, byte_chars, entry_key, entry_path, file_numbers, is_file_key, key_text,
    lemma_all_clear, lemma_byte_chars_injective, parent_fault, path_fault, path_key, repeats,
    root_paths, size_fault, tree_fault,
};
use crate::order::{ints, is_order, name_order, name_views};
use crate::paths::{
    all_valid, collision_key, components, joined, law_portable_is_idempotent,
    law_wire_path_round_trip, path_collision_key, portable_all, portable_relative_path,
    safe_relative_path, PathError, RelativePath,
};
use crate::receive::{lemma_file_numbers, manifest_summary, transfer_summary};
use crate::wire::{
    checked_total, entry_views, total_size, EntryView, TransferEntry, TransferEntryKind,
    MAX_MANIFEST_ENTRIES,
};

verus! {

/// Why copied files cannot be captured.
#[derive(Debug, Clone, Copy, PartialEq, Eq, Structural)]
pub enum CaptureError {
    /// Nothing was copied.
    Empty,
    /// A copied path has no file name.
    NoName,
    TooManyEntries,
    Symlink,
    InvalidPath(PathError),
    DuplicatePath,
    SpecialFile,
}

/// What a path leads to.
#[derive(Debug, Clone, Copy, PartialEq, Eq, Structural)]
pub enum FileKind {
    File,
    Directory,
    Symlink,
    Special,
}

/// What the file system says of a path.
#[derive(Debug, Clone, Copy, PartialEq, Eq)]
pub struct FileMeta {
    pub kind: FileKind,
    pub size: u64,
    pub mode: Option<u32>,
    pub modified_nanos: u128,
}

/// A manifest entry, with the number of the path that its contents come from.
pub struct LocalEntry {
    pub entry: TransferEntry,
    pub source: Option<u64>,
    pub modified_nanos: u128,
}

/// A local entry as a value.
pub ghost struct LocalView {
    pub entry: EntryView,
    pub source: Option<u64>,
    pub modified: u128,
}

impl View for LocalEntry {
    type V = LocalView;

    open spec fn view(&self) -> LocalView {
        LocalView { entry: self.entry@, source: self.source, modified: self.modified_nanos }
    }
}

/// The views of a list of local entries.
pub open spec fn local_views(entries: Seq<LocalEntry>) -> Seq<LocalView> {
    entries.map_values(|e: LocalEntry| e@)
}

/// The manifest of a list of local entries.
pub open spec fn manifest_of(entries: Seq<LocalView>) -> Seq<EntryView> {
    entries.map_values(|e: LocalView| e.entry)
}

/// When each of the local entries was last changed.
pub open spec fn times_of(entries: Seq<LocalView>) -> Seq<u128> {
    entries.map_values(|e: LocalView| e.modified)
}

/// Whether a directory of the manifest has this path.
pub open spec fn is_directory_path(entries: Seq<LocalView>, path: Seq<Seq<u8>>) -> bool {
    exists|j: int|
        0 <= j < entries.len() && #[trigger] entry_path(entries[j].entry) == path
            && entries[j].entry.kind == TransferEntryKind::Directory
}

/// Whether every directory on the way to a path is in the manifest.
pub open spec fn is_parented(entries: Seq<LocalView>, path: Seq<Seq<u8>>) -> bool {
    forall|k: int| 0 < k < path.len() ==> is_directory_path(entries, #[trigger] path.take(k))
}

/// How far a capture has come.
pub ghost struct CaptureView {
    /// What is still to be looked at, the next one last: the number of the path,
    /// and where it goes; nothing where it has no name.
    pub pending: Seq<(u64, Option<Seq<Seq<u8>>>)>,
    /// The directory whose contents are to be listed next, if one is.
    pub open: Option<Seq<Seq<u8>>>,
    pub entries: Seq<LocalView>,
    /// Whether the files are ones that were received.
    pub internal: bool,
}

/// Where roots go, the first of them last.
pub open spec fn root_items(roots: Seq<(u64, Option<Seq<u8>>)>) -> Seq<
    (u64, Option<Seq<Seq<u8>>>),
> {
    Seq::new(
        roots.len(),
        |i: int|
            {
                let root = roots[roots.len() - 1 - i];
                (
                    root.0,
                    match root.1 {
                        Some(name) => Some(seq![name]),
                        None => None,
                    },
                )
            },
    )
}

/// Where the contents of a directory go, the first of them in the given order last.
pub open spec fn child_items(
    directory: Seq<Seq<u8>>,
    names: Seq<Seq<u8>>,
    sources: Seq<u64>,
    order: Seq<int>,
) -> Seq<(u64, Option<Seq<Seq<u8>>>)> {
    Seq::new(
        order.len(),
        |i: int|
            {
                let at = order[order.len() - 1 - i];
                (sources[at], Some(directory.push(names[at])))
            },
    )
}

impl CaptureView {
    /// Where the path goes that is looked at next.
    pub open spec fn next_path(self) -> Seq<Seq<u8>> {
        self.pending.last().1->0
    }

    /// The wire form of that path.
    pub open spec fn next_wire(self) -> Seq<u8> {
        joined(portable_all(self.next_path()))
    }

    /// Whether an entry has the key of a wire path.
    pub open spec fn taken(self, wire: Seq<u8>) -> bool {
        exists|j: int|
            0 <= j < self.entries.len() && collision_key((#[trigger] self.entries[j]).entry.path)
                == collision_key(wire)
    }

    /// Why the next path is not even looked at, if it is not.
    pub open spec fn look_fault(self) -> Option<CaptureError> {
        if self.pending.last().1 is None {
            Some(CaptureError::NoName)
        } else if self.entries.len() >= MAX_MANIFEST_ENTRIES {
            Some(CaptureError::TooManyEntries)
        } else {
            None
        }
    }

    /// Why what was found is refused, if it is.
    pub open spec fn enter_fault(self, kind: FileKind) -> Option<CaptureError> {
        if kind == FileKind::Symlink {
            Some(CaptureError::Symlink)
        } else if !all_valid(self.next_path()) {
            Some(CaptureError::InvalidPath(PathError::InvalidComponent))
        } else if self.taken(self.next_wire()) {
            Some(CaptureError::DuplicatePath)
        } else if kind == FileKind::Special {
            Some(CaptureError::SpecialFile)
        } else {
            None
        }
    }

    /// The capture with what was found put into the manifest.
    pub open spec fn entered(self, meta: FileMeta) -> CaptureView {
        let directory = meta.kind == FileKind::Directory;
        let entry = EntryView {
            path: self.next_wire(),
            kind: if directory {
                TransferEntryKind::Directory
            } else {
                TransferEntryKind::File
            },
            size: if directory {
                0
            } else {
                meta.size
            },
            mode: meta.mode,
        };
        CaptureView {
            pending: self.pending.drop_last(),
            open: if directory {
                Some(portable_all(self.next_path()))
            } else {
                None
            },
            entries: self.entries.push(
                LocalView {
                    entry,
                    source: if directory {
                        None
                    } else {
                        Some(self.pending.last().0)
                    },
                    modified: meta.modified_nanos,
                },
            ),
            ..self
        }
    }

    /// The capture with the contents of the directory that was to be listed, which are
    /// looked at next, in the given order.
    pub open spec fn listed(
        self,
        names: Seq<Seq<u8>>,
        sources: Seq<u64>,
        order: Seq<int>,
    ) -> CaptureView {
        CaptureView {
            pending: self.pending + child_items(self.open->0, names, sources, order),
            open: None,
            ..self
        }
    }

    /// The entries make up a manifest: their paths are valid and do not collide,
    /// the directories on the way to each are there, and the first is a root.
    pub open spec fn entries_valid(self) -> bool {
        &&& self.entries.len() <= MAX_MANIFEST_ENTRIES
        &&& forall|i: int|
            0 <= i < self.entries.len() ==> {
                let entry = (#[trigger] self.entries[i]).entry;
                &&& all_valid(components(entry.path))
                &&& entry.path == joined(entry_path(entry))
                &&& is_parented(self.entries, entry_path(entry))
                &&& entry.kind == TransferEntryKind::Directory ==> entry.size == 0
                &&& self.entries[i].source is Some <==> entry.kind == TransferEntryKind::File
            }
        &&& forall|i: int, j: int|
            0 <= i < j < self.entries.len() ==> collision_key(
                (#[trigger] self.entries[i]).entry.path,
            ) != collision_key((#[trigger] self.entries[j]).entry.path)
        &&& self.entries.len() > 0 ==> entry_path(self.entries[0].entry).len() == 1
    }

    /// What is still to be looked at lies in directories of the manifest.
    pub open spec fn pending_valid(self) -> bool {
        &&& forall|i: int|
            0 <= i < self.pending.len() ==> ((#[trigger] self.pending[i]).1 matches Some(path) ==> {
                &&& path.len() > 0
                &&& is_parented(self.entries, path)
                &&& self.entries.len() == 0 ==> path.len() == 1
            })
        &&& self.open matches Some(path) ==> is_directory_path(self.entries, path)
        &&& self.entries.len() == 0 ==> self.pending.len() > 0
    }

    /// The capture is in order.
    pub open spec fn valid(self) -> bool {
        self.entries_valid() && self.pending_valid()
    }
}

/// A path that is still to be looked at.
struct Pending {
    source: u64,
    relative: Option<RelativePath>,
}

impl View for Pending {
    type V = (u64, Option<Seq<Seq<u8>>>);

    closed spec fn view(&self) -> (u64, Option<Seq<Seq<u8>>>) {
        (
            self.source,
            match self.relative {
                Some(path) => Some(path@),
                None => None,
            },
        )
    }
}

/// A capture under way.
pub struct Capture {
    pending: Vec<Pending>,
    open: Option<RelativePath>,
    entries: Vec<LocalEntry>,
    names: StringHashSet,
    internal: bool,
}

impl View for Capture {
    type V = CaptureView;

    closed spec fn view(&self) -> CaptureView {
        CaptureView {
            pending: self.pending@.map_values(|p: Pending| p@),
            open: match self.open {
                Some(path) => Some(path@),
                None => None,
            },
            entries: local_views(self.entries@),
            internal: self.internal,
        }
    }
}

/// Captured files, ready to be sent.
pub struct CapturedFiles {
    pub entries: Vec<LocalEntry>,
    pub identity: u64,
    pub internal: bool,
}

/// A copied path: its number, and its file name if it has one.
pub struct CopiedPath {
    pub source: u64,
    pub name: Option<Vec<u8>>,
}

/// The views of a list of copied paths.
pub open spec fn copied_views(roots: Seq<CopiedPath>) -> Seq<(u64, Option<Seq<u8>>)> {
    roots.map_values(
        |r: CopiedPath|
            (
                r.source,
                match r.name {
                    Some(name) => Some(name@),
                    None => None,
                },
            ),
    )
}

/// Begins to capture copied paths, which are looked at in their order.
pub fn capture_files(roots: &Vec<CopiedPath>, internal: bool) -> (r: Result<Capture, CaptureError>)
    ensures
        r is Err <==> roots@.len() == 0,
        r matches Err(error) ==> error == CaptureError::Empty,
        r matches Ok(capture) ==> capture.wf() && capture@ == (CaptureView {
            pending: root_items(copied_views(roots@)),
            open: None,
            entries: seq![],
            internal,
        }),
{
    if roots.len() == 0 {
        return Err(CaptureError::Empty);
    }
    let ghost all = copied_views(roots@);
    let ghost wanted = root_items(all);
    let ghost n = roots@.len() as int;
    let mut pending: Vec<Pending> = Vec::new();
    let mut i: usize = roots.len();
    while i > 0
        invariant
            all == copied_views(roots@),
            wanted == root_items(all),
            n == roots@.len(),
            i <= n,
            pending@.len() == n - i,
            forall|k: int| 0 <= k < n - i ==> (#[trigger] pending@[k])@ == wanted[k],
        decreases i,
    {
        i -= 1;
        let relative = match &roots[i].name {
            Some(name) => {
                let empty = RelativePath { components: Vec::new() };
                let path = empty.join(name.as_slice());
                proof {
                    assert(path@ == seq![name@]);
                }
                Some(path)
            },
            None => None,
        };
        proof {
            assert(all[i as int].0 == roots@[i as int].source);
            assert(wanted[n - 1 - i].0 == all[i as int].0);
        }
        pending.push(Pending { source: roots[i].source, relative });
    }
    let capture = Capture {
        pending,
        open: None,
        entries: Vec::new(),
        names: StringHashSet::new(),
        internal,
    };
    proof {
        assert(capture@.pending == wanted);
        assert(capture@.entries == Seq::<LocalView>::empty());
        assert forall|i: int| 0 <= i < capture@.pending.len() implies ((
        #[trigger] capture@.pending[i]).1 matches Some(path) ==> {
            &&& path.len() > 0
            &&& is_parented(capture@.entries, path)
            &&& capture@.entries.len() == 0 ==> path.len() == 1
        }) by {
            assert(capture@.pending[i] == wanted[i]);
        }
    }
    Ok(capture)
}

/// A path that was written for the wire and read back.
proof fn lemma_wire_path(path: Seq<Seq<u8>>, entry: EntryView)
    requires
        path.len() > 0,
        entry.path == joined(portable_all(path)),
    ensures
        all_valid(components(entry.path)),
        entry_path(entry) == portable_all(path),
        entry.path == joined(entry_path(entry)),
{
    law_wire_path_round_trip(path);
}

/// A path whose components are portable is its own portable form.
proof fn lemma_entry_path_is_portable(entry: EntryView)
    ensures
        portable_all(entry_path(entry)) == entry_path(entry),
{
    let path = entry_path(entry);
    assert forall|i: int| 0 <= i < path.len() implies portable_all(path)[i] == path[i] by {
        law_portable_is_idempotent(components(entry.path)[i]);
    }
    assert(portable_all(path) == path);
}

/// More entries leave the directories on the way to a path where they are.
proof fn lemma_parented_grows(entries: Seq<LocalView>, more: LocalView, path: Seq<Seq<u8>>)
    requires
        is_parented(entries, path),
    ensures
        is_parented(entries.push(more), path),
{
    assert forall|k: int| 0 < k < path.len() implies is_directory_path(
        entries.push(more),
        #[trigger] path.take(k),
    ) by {
        assert(is_directory_path(entries, path.take(k)));
        let j = choose|j: int|
            0 <= j < entries.len() && #[trigger] entry_path(entries[j].entry) == path.take(k)
                && entries[j].entry.kind == TransferEntryKind::Directory;
        assert(entries.push(more)[j] == entries[j]);
        assert(entry_path(entries.push(more)[j].entry) == path.take(k));
    }
}

/// What lies in a directory of the manifest has the directories on its way there.
proof fn lemma_child_is_parented(view: CaptureView, directory: Seq<Seq<u8>>, name: Seq<u8>)
    requires
        view.entries_valid(),
        is_directory_path(view.entries, directory),
    ensures
        is_parented(view.entries, directory.push(name)),
{
    let j = choose|j: int|
        0 <= j < view.entries.len() && #[trigger] entry_path(view.entries[j].entry) == directory
            && view.entries[j].entry.kind == TransferEntryKind::Directory;
    let path = directory.push(name);
    assert(is_parented(view.entries, entry_path(view.entries[j].entry)));
    assert forall|k: int| 0 < k < path.len() implies is_directory_path(
        view.entries,
        #[trigger] path.take(k),
    ) by {
        if k == directory.len() {
            assert(path.take(k) == directory);
        } else {
            assert(path.take(k) == directory.take(k));
        }
    }
}

/// Entering what was found keeps the capture in order.
pub proof fn lemma_entered_is_valid(view: CaptureView, meta: FileMeta)
    requires
        view.valid(),
        view.pending.len() > 0,
        view.look_fault() is None,
        view.enter_fault(meta.kind) is None,
    ensures
        view.entered(meta).valid(),
{
    let after = view.entered(meta);
    let path = view.next_path();
    let new = after.entries.last();
    let n = view.entries.len() as int;
    assert(view.pending[view.pending.len() - 1].1 == Some(path));
    lemma_wire_path(path, new.entry);
    let portable = portable_all(path);
    assert forall|k: int| 0 < k < portable.len() implies is_directory_path(
        view.entries,
        #[trigger] portable.take(k),
    ) by {
        assert(is_directory_path(view.entries, path.take(k)));
        let j = choose|j: int|
            0 <= j < view.entries.len() && #[trigger] entry_path(view.entries[j].entry)
                == path.take(k) && view.entries[j].entry.kind == TransferEntryKind::Directory;
        lemma_entry_path_is_portable(view.entries[j].entry);
        assert(portable.take(k) == portable_all(path.take(k)));
    }
    lemma_parented_grows(view.entries, new, portable);
    assert forall|i: int| 0 <= i < after.entries.len() implies {
        let entry = (#[trigger] after.entries[i]).entry;
        &&& all_valid(components(entry.path))
        &&& entry.path == joined(entry_path(entry))
        &&& is_parented(after.entries, entry_path(entry))
        &&& entry.kind == TransferEntryKind::Directory ==> entry.size == 0
        &&& after.entries[i].source is Some <==> entry.kind == TransferEntryKind::File
    } by {
        if i < n {
            assert(after.entries[i] == view.entries[i]);
            lemma_parented_grows(view.entries, new, entry_path(view.entries[i].entry));
        }
    }
    assert forall|i: int, j: int| 0 <= i < j < after.entries.len() implies collision_key(
        (#[trigger] after.entries[i]).entry.path,
    ) != collision_key((#[trigger] after.entries[j]).entry.path) by {
        assert(after.entries[i] == view.entries[i]);
        if j < n {
            assert(after.entries[j] == view.entries[j]);
        }
    }
    if n == 0 {
        assert(path.len() == 1);
        assert(portable.len() == 1);
    } else {
        assert(after.entries[0] == view.entries[0]);
    }
    assert forall|i: int| 0 <= i < after.pending.len() implies ((
    #[trigger] after.pending[i]).1 matches Some(p) ==> {
        &&& p.len() > 0
        &&& is_parented(after.entries, p)
        &&& after.entries.len() == 0 ==> p.len() == 1
    }) by {
        assert(after.pending[i] == view.pending[i]);
        if let Some(p) = after.pending[i].1 {
            lemma_parented_grows(view.entries, new, p);
        }
    }
    if meta.kind == FileKind::Directory {
        assert(after.entries[n] == new);
        assert(entry_path(after.entries[n].entry) == portable);
        assert(is_directory_path(after.entries, portable));
    }
}

/// Listing a directory keeps the capture in order.
pub proof fn lemma_listed_is_valid(
    view: CaptureView,
    names: Seq<Seq<u8>>,
    sources: Seq<u64>,
    order: Seq<int>,
)
    requires
        view.valid(),
        view.open is Some,
    ensures
        view.listed(names, sources, order).valid(),
{
    let after = view.listed(names, sources, order);
    let directory = view.open->0;
    let children = child_items(directory, names, sources, order);
    assert forall|k: int| 0 <= k < after.pending.len() implies ((
    #[trigger] after.pending[k]).1 matches Some(p) ==> {
        &&& p.len() > 0
        &&& is_parented(after.entries, p)
        &&& after.entries.len() == 0 ==> p.len() == 1
    }) by {
        if k < view.pending.len() {
            assert(after.pending[k] == view.pending[k]);
        } else {
            let m = k - view.pending.len();
            assert(after.pending[k] == children[m]);
            lemma_child_is_parented(view, directory, names[order[order.len() - 1 - m]]);
            assert(view.entries.len() > 0);
        }
    }
}

/// A capture that has nothing left to look at holds a manifest that every device
/// accepts, unless it is too large.
pub proof fn law_captured_manifest_is_accepted(view: CaptureView)
    requires
        view.valid(),
        view.pending.len() == 0,
    ensures
        0 < view.entries.len() <= MAX_MANIFEST_ENTRIES,
        tree_fault(manifest_of(view.entries)) is None,
{
    let entries = manifest_of(view.entries);
    let n = entries.len() as int;
    assert forall|i: int| 0 <= i < n implies #[trigger] entry_key(entries[i]) == collision_key(
        entries[i].path,
    ) by {
        assert(entries[i] == view.entries[i].entry);
        lemma_entry_path_is_portable(entries[i]);
    }
    assert forall|i: int| 0 <= i < n implies #[trigger] path_fault(entries)(i) is None by {
        assert(entries[i] == view.entries[i].entry);
        if repeats(entries, i) {
            let j = choose|j: int|
                0 <= j < i && #[trigger] entry_key(entries[j]) == entry_key(entries[i]);
            assert(entries[j] == view.entries[j].entry);
            assert(entry_key(entries[i]) == collision_key(view.entries[i].entry.path));
            assert(false);
        }
    }
    lemma_all_clear(n, path_fault(entries));
    assert forall|i: int| 0 <= i < n implies #[trigger] parent_fault(entries)(i) is None by {
        assert(entries[i] == view.entries[i].entry);
        let path = entry_path(entries[i]);
        assert(is_parented(view.entries, entry_path(view.entries[i].entry)));
        if below_file(entries, path) {
            let k = choose|k: int|
                0 < k < path.len() && is_file_key(entries, #[trigger] path_key(path.take(k)));
            assert(is_directory_path(view.entries, path.take(k)));
            let d = choose|j: int|
                0 <= j < view.entries.len() && #[trigger] entry_path(view.entries[j].entry)
                    == path.take(k) && view.entries[j].entry.kind == TransferEntryKind::Directory;
            assert(entries[d] == view.entries[d].entry);
            let f = choose|j: int|
                0 <= j < entries.len() && #[trigger] entry_key(entries[j]) == path_key(path.take(k))
                    && entries[j].kind == TransferEntryKind::File;
            assert(entries[f] == view.entries[f].entry);
            assert(entry_key(entries[d]) == path_key(path.take(k)));
            assert(collision_key(view.entries[f].entry.path) == collision_key(
                view.entries[d].entry.path,
            ));
            assert(f != d);
            assert(false);
        }
    }
    lemma_all_clear(n, parent_fault(entries));
    assert forall|i: int| 0 <= i < n implies #[trigger] size_fault(entries)(i) is None by {
        assert(entries[i] == view.entries[i].entry);
    }
    lemma_all_clear(n, size_fault(entries));
    assert(entries[0] == view.entries[0].entry);
    lemma_first_is_root(entries);
}

proof fn lemma_first_is_root(entries: Seq<EntryView>)
    requires
        entries.len() > 0,
        entry_path(entries[0]).len() == 1,
    ensures
        root_paths(entries).len() > 0,
    decreases entries.len(),
{
    if entries.len() > 1 {
        assert(entries.drop_last()[0] == entries[0]);
        lemma_first_is_root(entries.drop_last());
    }
}

impl Capture {
    /// The parts fit each other, and the capture is in order.
    pub closed spec fn wf(self) -> bool {
        &&& self@.valid()
        &&& forall|i: int|
            0 <= i < self.entries@.len() ==> self.names@.contains(
                byte_chars(collision_key((#[trigger] self.entries@[i]).entry.path@)),
            )
        &&& forall|text: Seq<char>| #[trigger]
            self.names@.contains(text) ==> exists|i: int|
                0 <= i < self.entries@.len() && text == byte_chars(
                    collision_key((#[trigger] self.entries@[i]).entry.path@),
                )
    }

    /// The number of the path to look at next; nothing once all were looked at.
    pub fn next_source(&self) -> (r: Result<Option<u64>, CaptureError>)
        requires
            self.wf(),
            self@.open is None,
        ensures
            r == Ok::<Option<u64>, CaptureError>(None) <==> self@.pending.len() == 0,
            self@.pending.len() > 0 ==> match self@.look_fault() {
                Some(error) => r == Err::<Option<u64>, CaptureError>(error),
                None => r == Ok::<Option<u64>, CaptureError>(Some(self@.pending.last().0)),
            },
    {
        let n: usize = self.pending.len();
        if n == 0 {
            return Ok(None);
        }
        proof {
            assert(self@.pending[n - 1] == self.pending@[n - 1]@);
            assert(self@.entries.len() == self.entries@.len());
        }
        if self.pending[n - 1].relative.is_none() {
            return Err(CaptureError::NoName);
        }
        if self.entries.len() >= MAX_MANIFEST_ENTRIES {
            return Err(CaptureError::TooManyEntries);
        }
        Ok(Some(self.pending[n - 1].source))
    }

    /// Takes what was found at the path that was to be looked at. The answer says
    /// whether it is a directory, whose contents are to be listed before anything
    /// else is looked at.
    pub fn capture_entry(&mut self, meta: FileMeta) -> (r: Result<bool, CaptureError>)
        requires
            old(self).wf(),
            old(self)@.open is None,
            old(self)@.pending.len() > 0,
            old(self)@.look_fault() is None,
        ensures
            final(self).wf(),
            r is Ok <==> old(self)@.enter_fault(meta.kind) is None,
            r matches Ok(list) ==> final(self)@ == old(self)@.entered(meta) && list == (meta.kind
                == FileKind::Directory),
            r matches Err(error) ==> *final(self) == *old(self) && old(self)@.enter_fault(meta.kind)
                == Some(error),
    {
        let ghost before = *self;
        let ghost view = self@;
        let n: usize = self.pending.len();
        proof {
            assert(self@.pending[n - 1] == self.pending@[n - 1]@);
            assert(self@.entries.len() == self.entries@.len());
        }
        if meta.kind == FileKind::Symlink {
            return Err(CaptureError::Symlink);
        }
        let relative = match &self.pending[n - 1].relative {
            Some(relative) => relative,
            None => {
                return Err(CaptureError::NoName);
            },
        };
        let wire = match portable_relative_path(relative) {
            Ok(wire) => wire,
            Err(error) => {
                return Err(CaptureError::InvalidPath(error));
            },
        };
        let key = path_collision_key(wire.as_slice());
        let text = key_text(key.as_slice());
        proof {
            assert(wire@ == view.next_wire());
            if self.names@.contains(text@) {
                let i = choose|i: int|
                    0 <= i < self.entries@.len() && text@ == byte_chars(
                        collision_key((#[trigger] self.entries@[i]).entry.path@),
                    );
                lemma_byte_chars_injective(key@, collision_key(self.entries@[i].entry.path@));
                assert(view.entries[i] == self.entries@[i]@);
                assert(view.taken(wire@));
            } else if view.taken(wire@) {
                let j = choose|j: int|
                    0 <= j < view.entries.len() && collision_key(
                        (#[trigger] view.entries[j]).entry.path,
                    ) == collision_key(wire@);
                assert(view.entries[j] == self.entries@[j]@);
                assert(false);
            }
        }
        if self.names.contains(text.as_str()) {
            return Err(CaptureError::DuplicatePath);
        }
        if meta.kind == FileKind::Special {
            return Err(CaptureError::SpecialFile);
        }
        proof {
            law_wire_path_round_trip(view.next_path());
        }
        let normalized = match safe_relative_path(wire.as_slice()) {
            Ok(normalized) => normalized,
            Err(error) => {
                return Err(CaptureError::InvalidPath(error));
            },
        };
        let directory = meta.kind == FileKind::Directory;
        let source: u64 = self.pending[n - 1].source;
        self.pending.pop();
        self.names.insert(text);
        let local = LocalEntry {
            entry: TransferEntry {
                path: wire,
                kind: if directory {
                    TransferEntryKind::Directory
                } else {
                    TransferEntryKind::File
                },
                size: if directory {
                    0
                } else {
                    meta.size
                },
                mode: meta.mode,
            },
            source: if directory {
                None
            } else {
                Some(source)
            },
            modified_nanos: meta.modified_nanos,
        };
        self.entries.push(local);
        self.open = if directory {
            Some(normalized)
        } else {
            None
        };
        proof {
            assert(self@.pending == view.pending.drop_last());
            assert(local_views(self.entries@) == view.entries.push(local@));
            assert(local@ == view.entered(meta).entries.last());
            assert(self@.entries == view.entered(meta).entries);
            assert(self@ == view.entered(meta));
            lemma_entered_is_valid(view, meta);
            assert forall|i: int| 0 <= i < self.entries@.len() implies self.names@.contains(
                byte_chars(collision_key((#[trigger] self.entries@[i]).entry.path@)),
            ) by {
                if i < before.entries@.len() {
                    assert(self.entries@[i] == before.entries@[i]);
                }
            }
            assert forall|t: Seq<char>| #[trigger] self.names@.contains(t) implies exists|i: int|
                0 <= i < self.entries@.len() && t == byte_chars(
                    collision_key((#[trigger] self.entries@[i]).entry.path@),
                ) by {
                let m = before.entries@.len() as int;
                if t == text@ {
                    assert(self.entries@[m] == local);
                    assert(t == byte_chars(collision_key(self.entries@[m].entry.path@)));
                } else {
                    assert(before.names@.contains(t));
                    let i = choose|i: int|
                        0 <= i < before.entries@.len() && t == byte_chars(
                            collision_key((#[trigger] before.entries@[i]).entry.path@),
                        );
                    assert(self.entries@[i] == before.entries@[i]);
                }
            }
        }
        Ok(directory)
    }

    /// Takes the contents of the directory that was to be listed: the name of each,
    /// and the number of its path. They are looked at next, ordered by name.
    pub fn list_directory(&mut self, names: &Vec<Vec<u8>>, sources: &Vec<u64>)
        requires
            old(self).wf(),
            old(self)@.open is Some,
            names@.len() == sources@.len(),
        ensures
            final(self).wf(),
            exists|order: Seq<int>| #[trigger]
                is_order(name_views(names@), order) && final(self)@ == old(self)@.listed(
                    name_views(names@),
                    sources@,
                    order,
                ),
    {
        let ghost before = *self;
        let ghost view = self@;
        let order = name_order(names);
        let ghost places = ints(order@);
        let ghost all = name_views(names@);
        let mut open: Option<RelativePath> = None;
        std::mem::swap(&mut self.open, &mut open);
        let directory = match open {
            Some(directory) => directory,
            None => {
                return ;
            },
        };
        let ghost wanted = child_items(directory@, all, sources@, places);
        let ghost n = order@.len() as int;
        let mut i: usize = order.len();
        proof {
            assert(places.len() == n);
            assert(self@.pending == view.pending);
            assert(view.pending + wanted.take(0) == view.pending);
        }
        while i > 0
            invariant
                n == order@.len(),
                n == names@.len(),
                n == sources@.len(),
                i <= n,
                places == ints(order@),
                all == name_views(names@),
                is_order(all, places),
                wanted == child_items(directory@, all, sources@, places),
                wanted.len() == n,
                self@.pending == view.pending + wanted.take(n - i),
                self.entries@ == before.entries@,
                self.names@ == before.names@,
                self.open is None,
                self.internal == before.internal,
            decreases i,
        {
            i -= 1;
            let at: usize = order[i];
            let ghost old_pending = self.pending@;
            proof {
                assert(places[i as int] == at);
                assert(all[at as int] == names@[at as int]@);
                assert(places[n - 1 - (n - 1 - i)] == at);
            }
            let path = directory.join(names[at].as_slice());
            let item = Pending { source: sources[at], relative: Some(path) };
            self.pending.push(item);
            proof {
                assert(self@.pending == old_pending.map_values(|p: Pending| p@).push(item@));
                assert(wanted[n - 1 - i] == item@);
                assert(wanted.take(n - i) == wanted.take(n - 1 - i).push(item@));
                assert(self@.pending == view.pending + wanted.take(n - i));
            }
        }
        proof {
            assert(wanted.take(n) == wanted);
            assert(is_order(all, places));
            assert(self@ == view.listed(all, sources@, places));
            lemma_listed_is_valid(view, all, sources@, places);
        }
    }

    /// Ends the capture, once nothing is left to look at or to list.
    pub fn finish(self) -> (files: CapturedFiles)
        requires
            self.wf(),
            self@.open is None,
            self@.pending.len() == 0,
        ensures
            local_views(files.entries@) == self@.entries,
            files.identity == manifest_hash(manifest_of(self@.entries), times_of(self@.entries)),
            files.internal == self@.internal,
            files.wf(),
    {
        proof {
            law_captured_manifest_is_accepted(self@);
            assert(self@.entries == local_views(self.entries@));
            assert forall|i: int| 0 <= i < self.entries@.len() implies ((
            #[trigger] self.entries@[i]).source is Some <==> self.entries@[i].entry.kind
                == TransferEntryKind::File) by {
                assert(self@.entries[i] == self.entries@[i]@);
            }
        }
        let manifest = manifest_copy(&self.entries);
        let times = times_copy(&self.entries);
        let identity: u64 = manifest_identity(&manifest, &times);
        CapturedFiles { entries: self.entries, identity, internal: self.internal }
    }
}

/// Copies the manifest out of local entries.
pub fn manifest_copy(entries: &Vec<LocalEntry>) -> (manifest: Vec<TransferEntry>)
    ensures
        entry_views(manifest@) == manifest_of(local_views(entries@)),
{
    let ghost wanted = manifest_of(local_views(entries@));
    let mut manifest: Vec<TransferEntry> = Vec::new();
    let mut i: usize = 0;
    while i < entries.len()
        invariant
            i <= entries@.len(),
            wanted == manifest_of(local_views(entries@)),
            wanted.len() == entries@.len(),
            entry_views(manifest@) == wanted.take(i as int),
        decreases entries@.len() - i,
    {
        let ghost before = manifest@;
        let entry = &entries[i].entry;
        let copy = TransferEntry {
            path: vstd::slice::slice_to_vec(entry.path.as_slice()),
            kind: entry.kind,
            size: entry.size,
            mode: entry.mode,
        };
        manifest.push(copy);
        proof {
            assert(local_views(entries@)[i as int] == entries@[i as int]@);
            assert(wanted[i as int] == entry@);
            assert(copy@ == entry@);
            assert(entry_views(manifest@) == entry_views(before).push(copy@));
            assert(wanted.take(i as int + 1) == wanted.take(i as int).push(wanted[i as int]));
        }
        i += 1;
    }
    proof {
        assert(wanted.take(wanted.len() as int) == wanted);
    }
    manifest
}

/// Copies the times out of local entries.
fn times_copy(entries: &Vec<LocalEntry>) -> (times: Vec<u128>)
    ensures
        times@ == times_of(local_views(entries@)),
{
    let ghost wanted = times_of(local_views(entries@));
    let mut times: Vec<u128> = Vec::new();
    let mut i: usize = 0;
    while i < entries.len()
        invariant
            i <= entries@.len(),
            wanted == times_of(local_views(entries@)),
            wanted.len() == entries@.len(),
            times@ == wanted.take(i as int),
        decreases entries@.len() - i,
    {
        times.push(entries[i].modified_nanos);
        proof {
            assert(local_views(entries@)[i as int] == entries@[i as int]@);
            assert(wanted.take(i as int + 1) == wanted.take(i as int).push(wanted[i as int]));
        }
        i += 1;
    }
    proof {
        assert(wanted.take(wanted.len() as int) == wanted);
    }
    times
}

impl CapturedFiles {
    /// The manifest that is sent.
    pub open spec fn manifest(self) -> Seq<EntryView> {
        manifest_of(local_views(self.entries@))
    }

    /// When each of the files and directories was last changed.
    pub open spec fn times(self) -> Seq<u128> {
        times_of(local_views(self.entries@))
    }

    /// The manifest is one that is accepted, unless it is too large, the files have
    /// sources, and the whole is known by its hash.
    pub open spec fn wf(self) -> bool {
        &&& 0 < self.entries@.len() <= MAX_MANIFEST_ENTRIES
        &&& self.identity == manifest_hash(self.manifest(), self.times())
        &&& tree_fault(self.manifest()) is None
        &&& forall|i: int|
            0 <= i < self.entries@.len() ==> ((#[trigger] self.entries@[i]).source is Some
                <==> self.entries@[i].entry.kind == TransferEntryKind::File)
    }

    /// The bytes of all the files; nothing where the sum does not fit.
    pub fn total_bytes(&self) -> (total: Option<u64>)
        ensures
            total is Some <==> total_size(self.manifest()) <= u64::MAX,
            total matches Some(total) ==> total == total_size(self.manifest()),
    {
        let manifest = manifest_copy(&self.entries);
        checked_total(&manifest)
    }
}

/// What captured files are called in messages.
pub fn files_summary(files: &CapturedFiles) -> (text: String)
    requires
        total_size(files.manifest()) <= u64::MAX,
    ensures
        text@ == manifest_summary(files.manifest()),
{
    let manifest = manifest_copy(&files.entries);
    let ghost all = entry_views(manifest@);
    let ghost n = all.len() as int;
    let mut count: usize = 0;
    let mut i: usize = 0;
    while i < manifest.len()
        invariant
            all == entry_views(manifest@),
            n == all.len(),
            i <= n,
            count <= i,
            count == file_numbers(all.take(i as int)).len(),
        decreases n - i,
    {
        proof {
            assert(all.take(i as int + 1).drop_last() == all.take(i as int));
        }
        if manifest[i].kind == TransferEntryKind::File {
            count += 1;
        }
        i += 1;
    }
    proof {
        assert(all.take(n) == all);
        lemma_file_numbers(all);
    }
    let total: u64 = match checked_total(&manifest) {
        Some(total) => total,
        None => 0,
    };
    transfer_summary(count, manifest.len() - count, total)
}

/// Whether a path lies in a directory, or is that directory.
pub open spec fn lies_in(path: Seq<Seq<u8>>, directory: Seq<Seq<u8>>) -> bool {
    directory.is_prefix_of(path)
}

/// Whether a path begins with the components of a directory.
fn starts_with(path: &RelativePath, directory: &RelativePath) -> (r: bool)
    ensures
        r == lies_in(path@, directory@),
{
    if directory.components.len() > path.components.len() {
        return false;
    }
    let mut i: usize = 0;
    while i < directory.components.len()
        invariant
            i <= directory@.len(),
            directory.components@.len() == directory@.len(),
            path.components@.len() == path@.len(),
            directory@.len() <= path@.len(),
            forall|k: int| 0 <= k < i ==> path@[k] == directory@[k],
        decreases directory@.len() - i,
    {
        proof {
            assert(path@[i as int] == path.components@[i as int]@);
            assert(directory@[i as int] == directory.components@[i as int]@);
        }
        if !crate::text::same_bytes(
            path.components[i].as_slice(),
            directory.components[i].as_slice(),
        ) {
            proof {
                if lies_in(path@, directory@) {
                    assert(path@.take(directory@.len() as int)[i as int] == directory@[i as int]);
                }
            }
            return false;
        }
        i += 1;
    }
    proof {
        assert(path@.subrange(0, directory@.len() as int) == directory@);
    }
    true
}

/// Whether a copied path lies among the received files: as it is written, or else
/// once both are resolved. A path that cannot be resolved does not.
pub fn is_internal_cache_path(
    path: &RelativePath,
    cache_root: &RelativePath,
    canonical_path: Option<&RelativePath>,
    canonical_root: Option<&RelativePath>,
) -> (r: bool)
    ensures
        r == (lies_in(path@, cache_root@) || (canonical_path matches Some(path)
            && canonical_root matches Some(root) && lies_in(path@, root@))),
{
    if starts_with(path, cache_root) {
        return true;
    }
    match (canonical_path, canonical_root) {
        (Some(path), Some(root)) => starts_with(path, root),
        _ => false,
    }
}

} // verus!
