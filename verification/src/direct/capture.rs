//! Capturing copied files in the direct mode.
//!
//! The file system is looked at from outside. A capture says what to look at next,
//! and is told what is there.

use vstd::hash_set::StringHashSet;
use vstd::prelude::*;
use vstd::slice::slice_to_vec;
use vstd::utf8::valid_utf8;

use super::paths::{
    all_valid, components, invalid, is_invalid, joined, law_portable_is_idempotent,
    law_wire_path_round_trip, portable, portable_all, portable_component,
    TextPath,
};
use super::receive::{
    entry_fault, entry_path, manifest_summary, repeats, root_paths, tree_fault,
};
use super::wire::{
    checked_total, entry_views, file_numbers, lemma_file_numbers, manifest_hash, manifest_identity,
    total_size, EntryView, TransferEntry,
};
use crate::capture::{CopiedPath, FileKind, FileMeta};
use crate::manifest::lemma_all_clear;
use crate::order::{ints, is_order, name_order, name_views};
use crate::paths::{lossy, lossy_text};
use crate::receive::transfer_summary;
use crate::text::{chars_of, utf8_text};
use crate::wire::{TransferEntryKind, MAX_MANIFEST_ENTRIES};

verus! {

/// Why copied files cannot be captured.
#[derive(Debug, Clone, Copy, PartialEq, Eq, Structural)]
pub enum CaptureError {
    /// Nothing was copied.
    Empty,
    /// A copied path has no file name that is a text.
    NoName,
    TooManyEntries,
    Symlink,
    InvalidPath,
    DuplicatePath,
    SpecialFile,
}

/// A manifest entry, with the number of the path that its contents come from.
pub struct LocalEntry {
    pub entry: TransferEntry,
    pub source: Option<u64>,
    pub modified_nanos: u128,
}

/// A local entry as a value.
pub ghost struct LocalView {
    pub entry: EntryView,
    pub source: Option<u64>,
    pub modified: u128,
}

impl View for LocalEntry {
    type V = LocalView;

    open spec fn view(&self) -> LocalView {
        LocalView { entry: self.entry@, source: self.source, modified: self.modified_nanos }
    }
}

/// The views of a list of local entries.
pub open spec fn local_views(entries: Seq<LocalEntry>) -> Seq<LocalView> {
    entries.map_values(|e: LocalEntry| e@)
}

/// The manifest of a list of local entries.
pub open spec fn manifest_of(entries: Seq<LocalView>) -> Seq<EntryView> {
    entries.map_values(|e: LocalView| e.entry)
}

/// When each of the local entries was last changed.
pub open spec fn times_of(entries: Seq<LocalView>) -> Seq<u128> {
    entries.map_values(|e: LocalView| e.modified)
}

/// What is still to be looked at: the number of a path, the directory of the
/// manifest that it lies in, and its name, if it has one.
pub ghost struct PendingView {
    pub source: u64,
    pub parent: Seq<Seq<char>>,
    pub name: Option<Seq<u8>>,
}

impl PendingView {
    /// Where the path goes.
    pub open spec fn path(self) -> Seq<Seq<char>> {
        portable_all(self.parent.push(lossy(self.name->0)))
    }
}

/// How far a capture has come.
pub ghost struct CaptureView {
    /// What is still to be looked at, the next one last.
    pub pending: Seq<PendingView>,
    /// The directory whose contents are to be listed next, if one is.
    pub open: Option<Seq<Seq<char>>>,
    pub entries: Seq<LocalView>,
    /// Whether the files are ones that were received.
    pub internal: bool,
}

/// Copied paths as they are looked at, the first of them last.
pub open spec fn root_items(roots: Seq<CopiedPath>) -> Seq<PendingView> {
    Seq::new(
        roots.len(),
        |i: int|
            {
                let root = roots[roots.len() - 1 - i];
                PendingView {
                    source: root.source,
                    parent: seq![],
                    name: match root.name {
                        Some(name) => if valid_utf8(name@) {
                            Some(name@)
                        } else {
                            None
                        },
                        None => None,
                    },
                }
            },
    )
}

/// The contents of a directory as they are looked at, the first of them in the given
/// order last.
pub open spec fn child_items(
    directory: Seq<Seq<char>>,
    names: Seq<Seq<u8>>,
    sources: Seq<u64>,
    order: Seq<int>,
) -> Seq<PendingView> {
    Seq::new(
        order.len(),
        |i: int|
            {
                let at = order[order.len() - 1 - i];
                PendingView { source: sources[at], parent: directory, name: Some(names[at]) }
            },
    )
}

impl CaptureView {
    /// The wire form of the path that is looked at next.
    pub open spec fn next_wire(self) -> Seq<char> {
        joined(self.pending.last().path())
    }

    /// Whether an entry has this path.
    pub open spec fn taken(self, wire: Seq<char>) -> bool {
        exists|j: int|
            0 <= j < self.entries.len() && (#[trigger] self.entries[j]).entry.path == wire
    }

    /// Why the next path is not even looked at, if it is not.
    pub open spec fn look_fault(self) -> Option<CaptureError> {
        if self.pending.last().name is None {
            Some(CaptureError::NoName)
        } else if self.entries.len() >= MAX_MANIFEST_ENTRIES {
            Some(CaptureError::TooManyEntries)
        } else {
            None
        }
    }

    /// Why what was found is refused, if it is.
    pub open spec fn enter_fault(self, kind: FileKind) -> Option<CaptureError> {
        if kind == FileKind::Symlink {
            Some(CaptureError::Symlink)
        } else if invalid(lossy(self.pending.last().name->0)) {
            Some(CaptureError::InvalidPath)
        } else if self.taken(self.next_wire()) {
            Some(CaptureError::DuplicatePath)
        } else if kind == FileKind::Special {
            Some(CaptureError::SpecialFile)
        } else {
            None
        }
    }

    /// The capture with what was found put into the manifest.
    pub open spec fn entered(self, meta: FileMeta) -> CaptureView {
        let directory = meta.kind == FileKind::Directory;
        let entry = EntryView {
            path: self.next_wire(),
            kind: if directory {
                TransferEntryKind::Directory
            } else {
                TransferEntryKind::File
            },
            size: if directory {
                0
            } else {
                meta.size
            },
            mode: meta.mode,
        };
        CaptureView {
            pending: self.pending.drop_last(),
            open: if directory {
                Some(self.pending.last().path())
            } else {
                None
            },
            entries: self.entries.push(
                LocalView {
                    entry,
                    source: if directory {
                        None
                    } else {
                        Some(self.pending.last().source)
                    },
                    modified: meta.modified_nanos,
                },
            ),
            ..self
        }
    }

    /// The capture with the contents of the directory that was to be listed, which are
    /// looked at next, in the given order.
    pub open spec fn listed(
        self,
        names: Seq<Seq<u8>>,
        sources: Seq<u64>,
        order: Seq<int>,
    ) -> CaptureView {
        CaptureView {
            pending: self.pending + child_items(self.open->0, names, sources, order),
            open: None,
            ..self
        }
    }

    /// The entries make up a manifest: their paths are valid and different, and the
    /// first is a root; and what is still to be looked at lies in directories whose
    /// paths are portable.
    pub open spec fn valid(self) -> bool {
        &&& self.entries.len() <= MAX_MANIFEST_ENTRIES
        &&& forall|i: int|
            0 <= i < self.entries.len() ==> {
                let entry = (#[trigger] self.entries[i]).entry;
                &&& all_valid(components(entry.path))
                &&& entry.path == joined(entry_path(entry))
                &&& entry.kind == TransferEntryKind::Directory ==> entry.size == 0
                &&& self.entries[i].source is Some <==> entry.kind == TransferEntryKind::File
            }
        &&& forall|i: int, j: int|
            0 <= i < j < self.entries.len() ==> (#[trigger] self.entries[i]).entry.path != (
            #[trigger] self.entries[j]).entry.path
        &&& self.entries.len() > 0 ==> entry_path(self.entries[0].entry).len() == 1
        &&& forall|i: int|
            0 <= i < self.pending.len() ==> {
                let item = #[trigger] self.pending[i];
                &&& portable_all(item.parent) == item.parent
                &&& self.entries.len() == 0 ==> item.parent.len() == 0
            }
        &&& self.open matches Some(path) ==> portable_all(path) == path && self.entries.len() > 0
        &&& self.entries.len() == 0 ==> self.pending.len() > 0
    }
}

struct Pending {
    source: u64,
    parent: TextPath,
    name: Option<Vec<u8>>,
}

impl View for Pending {
    type V = PendingView;

    closed spec fn view(&self) -> PendingView {
        PendingView {
            source: self.source,
            parent: self.parent@,
            name: match self.name {
                Some(name) => Some(name@),
                None => None,
            },
        }
    }
}

/// A capture under way.
pub struct Capture {
    pending: Vec<Pending>,
    open: Option<TextPath>,
    entries: Vec<LocalEntry>,
    names: StringHashSet,
    internal: bool,
}

impl View for Capture {
    type V = CaptureView;

    closed spec fn view(&self) -> CaptureView {
        CaptureView {
            pending: self.pending@.map_values(|p: Pending| p@),
            open: match self.open {
                Some(path) => Some(path@),
                None => None,
            },
            entries: local_views(self.entries@),
            internal: self.internal,
        }
    }
}

/// Captured files, ready to be sent.
pub struct CapturedFiles {
    pub entries: Vec<LocalEntry>,
    pub identity: u64,
    pub internal: bool,
}

/// Begins to capture copied paths, which are looked at in their order.
pub fn capture_files(roots: &Vec<CopiedPath>, internal: bool) -> (r: Result<Capture, CaptureError>)
    ensures
        r is Err <==> roots@.len() == 0,
        r matches Err(error) ==> error == CaptureError::Empty,
        r matches Ok(capture) ==> capture.wf() && capture@ == (CaptureView {
            pending: root_items(roots@),
            open: None,
            entries: seq![],
            internal,
        }),
{
    if roots.len() == 0 {
        return Err(CaptureError::Empty);
    }
    let ghost wanted = root_items(roots@);
    let ghost n = roots@.len() as int;
    let mut pending: Vec<Pending> = Vec::new();
    let mut i: usize = roots.len();
    while i > 0
        invariant
            wanted == root_items(roots@),
            n == roots@.len(),
            i <= n,
            pending@.len() == n - i,
            forall|k: int| 0 <= k < n - i ==> (#[trigger] pending@[k])@ == wanted[k],
        decreases i,
    {
        i -= 1;
        let name = match &roots[i].name {
            Some(name) => {
                if utf8_text(name.as_slice()).is_some() {
                    Some(slice_to_vec(name.as_slice()))
                } else {
                    None
                }
            },
            None => None,
        };
        let parent = TextPath { components: Vec::new() };
        proof {
            assert(parent@ == Seq::<Seq<char>>::empty());
        }
        pending.push(Pending { source: roots[i].source, parent, name });
    }
    let capture = Capture {
        pending,
        open: None,
        entries: Vec::new(),
        names: StringHashSet::new(),
        internal,
    };
    proof {
        assert(capture@.pending == wanted);
        assert(capture@.entries == Seq::<LocalView>::empty());
        assert forall|i: int| 0 <= i < capture@.pending.len() implies {
            let item = #[trigger] capture@.pending[i];
            &&& portable_all(item.parent) == item.parent
            &&& capture@.entries.len() == 0 ==> item.parent.len() == 0
        } by {
            assert(capture@.pending[i] == wanted[i]);
            assert(portable_all(wanted[i].parent) == wanted[i].parent);
        }
    }
    Ok(capture)
}

proof fn lemma_portable_all_idempotent(path: Seq<Seq<char>>)
    ensures
        portable_all(portable_all(path)) == portable_all(path),
{
    assert forall|i: int| 0 <= i < path.len() implies portable_all(portable_all(path))[i]
        == portable_all(path)[i] by {
        law_portable_is_idempotent(path[i]);
    }
    assert(portable_all(portable_all(path)) == portable_all(path));
}

/// Entering what was found keeps the capture in order.
pub proof fn lemma_entered_is_valid(view: CaptureView, meta: FileMeta)
    requires
        view.valid(),
        view.pending.len() > 0,
        view.look_fault() is None,
        view.enter_fault(meta.kind) is None,
    ensures
        view.entered(meta).valid(),
{
    let after = view.entered(meta);
    let item = view.pending.last();
    assert(view.pending[view.pending.len() - 1] == item);
    let whole = item.parent.push(lossy(item.name->0));
    let new = after.entries.last();
    let n = view.entries.len() as int;
    law_wire_path_round_trip(whole);
    lemma_portable_all_idempotent(whole);
    assert(entry_path(new.entry) == item.path());
    assert forall|i: int| 0 <= i < after.entries.len() implies {
        let entry = (#[trigger] after.entries[i]).entry;
        &&& all_valid(components(entry.path))
        &&& entry.path == joined(entry_path(entry))
        &&& entry.kind == TransferEntryKind::Directory ==> entry.size == 0
        &&& after.entries[i].source is Some <==> entry.kind == TransferEntryKind::File
    } by {
        if i < n {
            assert(after.entries[i] == view.entries[i]);
        }
    }
    assert forall|i: int, j: int| 0 <= i < j < after.entries.len() implies (
    #[trigger] after.entries[i]).entry.path != (#[trigger] after.entries[j]).entry.path by {
        assert(after.entries[i] == view.entries[i]);
        if j < n {
            assert(after.entries[j] == view.entries[j]);
        }
    }
    if n == 0 {
        assert(item.path().len() == 1);
    } else {
        assert(after.entries[0] == view.entries[0]);
    }
    assert forall|i: int| 0 <= i < after.pending.len() implies {
        let p = #[trigger] after.pending[i];
        &&& portable_all(p.parent) == p.parent
        &&& after.entries.len() == 0 ==> p.parent.len() == 0
    } by {
        assert(after.pending[i] == view.pending[i]);
    }
}

/// Listing a directory keeps the capture in order.
pub proof fn lemma_listed_is_valid(
    view: CaptureView,
    names: Seq<Seq<u8>>,
    sources: Seq<u64>,
    order: Seq<int>,
)
    requires
        view.valid(),
        view.open is Some,
    ensures
        view.listed(names, sources, order).valid(),
{
    let after = view.listed(names, sources, order);
    let children = child_items(view.open->0, names, sources, order);
    assert forall|k: int| 0 <= k < after.pending.len() implies {
        let p = #[trigger] after.pending[k];
        &&& portable_all(p.parent) == p.parent
        &&& after.entries.len() == 0 ==> p.parent.len() == 0
    } by {
        if k < view.pending.len() {
            assert(after.pending[k] == view.pending[k]);
        } else {
            assert(after.pending[k] == children[k - view.pending.len()]);
        }
    }
}

/// A capture that has nothing left to look at holds a manifest that every device
/// accepts, unless it is too large.
pub proof fn law_captured_manifest_is_accepted(view: CaptureView)
    requires
        view.valid(),
        view.pending.len() == 0,
    ensures
        0 < view.entries.len() <= MAX_MANIFEST_ENTRIES,
        tree_fault(manifest_of(view.entries)) is None,
{
    let entries = manifest_of(view.entries);
    let n = entries.len() as int;
    assert forall|i: int| 0 <= i < n implies #[trigger] entry_fault(entries)(i) is None by {
        assert(entries[i] == view.entries[i].entry);
        if repeats(entries, i) {
            let j = choose|j: int|
                0 <= j < i && joined(#[trigger] entry_path(entries[j])) == joined(
                    entry_path(entries[i]),
                );
            assert(entries[j] == view.entries[j].entry);
            assert(view.entries[j].entry.path == view.entries[i].entry.path);
            assert(false);
        }
    }
    lemma_all_clear(n, entry_fault(entries));
    assert(entries[0] == view.entries[0].entry);
    lemma_first_is_root(entries);
}

proof fn lemma_first_is_root(entries: Seq<EntryView>)
    requires
        entries.len() > 0,
        entry_path(entries[0]).len() == 1,
    ensures
        root_paths(entries).len() > 0,
    decreases entries.len(),
{
    if entries.len() > 1 {
        assert(entries.drop_last()[0] == entries[0]);
        lemma_first_is_root(entries.drop_last());
    }
}

impl Capture {
    /// The parts fit each other, and the capture is in order.
    pub closed spec fn wf(self) -> bool {
        &&& self@.valid()
        &&& forall|i: int|
            0 <= i < self.entries@.len() ==> self.names@.contains(
                (#[trigger] self.entries@[i]).entry.path@,
            )
        &&& forall|text: Seq<char>| #[trigger]
            self.names@.contains(text) ==> exists|i: int|
                0 <= i < self.entries@.len() && text == (#[trigger] self.entries@[i]).entry.path@
    }

    /// The number of the path to look at next; nothing once all were looked at.
    pub fn next_source(&self) -> (r: Result<Option<u64>, CaptureError>)
        requires
            self.wf(),
            self@.open is None,
        ensures
            r == Ok::<Option<u64>, CaptureError>(None) <==> self@.pending.len() == 0,
            self@.pending.len() > 0 ==> match self@.look_fault() {
                Some(error) => r == Err::<Option<u64>, CaptureError>(error),
                None => r == Ok::<Option<u64>, CaptureError>(Some(self@.pending.last().source)),
            },
    {
        let n: usize = self.pending.len();
        if n == 0 {
            return Ok(None);
        }
        proof {
            assert(self@.pending[n - 1] == self.pending@[n - 1]@);
            assert(self@.entries.len() == self.entries@.len());
        }
        if self.pending[n - 1].name.is_none() {
            return Err(CaptureError::NoName);
        }
        if self.entries.len() >= MAX_MANIFEST_ENTRIES {
            return Err(CaptureError::TooManyEntries);
        }
        Ok(Some(self.pending[n - 1].source))
    }

    /// Takes what was found at the path that was to be looked at. The answer says
    /// whether it is a directory, whose contents are to be listed before anything
    /// else is looked at.
    pub fn collect_entry(&mut self, meta: FileMeta) -> (r: Result<bool, CaptureError>)
        requires
            old(self).wf(),
            old(self)@.open is None,
            old(self)@.pending.len() > 0,
            old(self)@.look_fault() is None,
        ensures
            final(self).wf(),
            r is Ok <==> old(self)@.enter_fault(meta.kind) is None,
            r matches Ok(list) ==> final(self)@ == old(self)@.entered(meta) && list == (meta.kind
                == FileKind::Directory),
            r matches Err(error) ==> *final(self) == *old(self) && old(self)@.enter_fault(meta.kind)
                == Some(error),
    {
        let ghost before = *self;
        let ghost view = self@;
        let n: usize = self.pending.len();
        proof {
            assert(self@.pending[n - 1] == self.pending@[n - 1]@);
            assert(self@.entries.len() == self.entries@.len());
        }
        if meta.kind == FileKind::Symlink {
            return Err(CaptureError::Symlink);
        }
        let name = match &self.pending[n - 1].name {
            Some(name) => lossy_text(name.as_slice()),
            None => {
                return Err(CaptureError::NoName);
            },
        };
        let chars = chars_of(name.as_str());
        if is_invalid(chars.as_slice()) {
            return Err(CaptureError::InvalidPath);
        }
        let mut path = self.pending[n - 1].parent.copy();
        let ghost parent = path@;
        let last = portable_component(name.as_str());
        path.components.push(last);
        proof {
            let item = view.pending.last();
            assert(path@ == parent.push(last@));
            assert(item.parent == parent);
            assert(portable_all(parent.push(name@)) == portable_all(parent).push(portable(name@)));
            assert(path@ == item.path());
        }
        let wire = path.text();
        proof {
            assert(wire@ == view.next_wire());
            if self.names@.contains(wire@) {
                let i = choose|i: int|
                    0 <= i < self.entries@.len() && wire@ == (
                    #[trigger] self.entries@[i]).entry.path@;
                assert(view.entries[i] == self.entries@[i]@);
                assert(view.taken(wire@));
            } else if view.taken(wire@) {
                let j = choose|j: int|
                    0 <= j < view.entries.len() && (#[trigger] view.entries[j]).entry.path == wire@;
                assert(view.entries[j] == self.entries@[j]@);
                assert(false);
            }
        }
        if self.names.contains(wire.as_str()) {
            return Err(CaptureError::DuplicatePath);
        }
        if meta.kind == FileKind::Special {
            return Err(CaptureError::SpecialFile);
        }
        let directory = meta.kind == FileKind::Directory;
        let source: u64 = self.pending[n - 1].source;
        self.pending.pop();
        self.names.insert(wire.clone());
        let local = LocalEntry {
            entry: TransferEntry {
                path: wire,
                kind: if directory {
                    TransferEntryKind::Directory
                } else {
                    TransferEntryKind::File
                },
                size: if directory {
                    0
                } else {
                    meta.size
                },
                mode: meta.mode,
            },
            source: if directory {
                None
            } else {
                Some(source)
            },
            modified_nanos: meta.modified_nanos,
        };
        self.entries.push(local);
        self.open = if directory {
            Some(path)
        } else {
            None
        };
        proof {
            assert(self@.pending == view.pending.drop_last());
            assert(local_views(self.entries@) == view.entries.push(local@));
            assert(local@ == view.entered(meta).entries.last());
            assert(self@.entries == view.entered(meta).entries);
            assert(self@ == view.entered(meta));
            lemma_entered_is_valid(view, meta);
            assert forall|i: int| 0 <= i < self.entries@.len() implies self.names@.contains(
                (#[trigger] self.entries@[i]).entry.path@,
            ) by {
                if i < before.entries@.len() {
                    assert(self.entries@[i] == before.entries@[i]);
                }
            }
            assert forall|t: Seq<char>| #[trigger] self.names@.contains(t) implies exists|i: int|
                0 <= i < self.entries@.len() && t == (#[trigger] self.entries@[i]).entry.path@ by {
                let m = before.entries@.len() as int;
                if t == local.entry.path@ {
                    assert(self.entries@[m] == local);
                } else {
                    assert(before.names@.contains(t));
                    let i = choose|i: int|
                        0 <= i < before.entries@.len() && t == (
                        #[trigger] before.entries@[i]).entry.path@;
                    assert(self.entries@[i] == before.entries@[i]);
                }
            }
        }
        Ok(directory)
    }

    /// Takes the contents of the directory that was to be listed: the name of each,
    /// and the number of its path. They are looked at next, ordered by name.
    pub fn list_directory(&mut self, names: &Vec<Vec<u8>>, sources: &Vec<u64>)
        requires
            old(self).wf(),
            old(self)@.open is Some,
            names@.len() == sources@.len(),
        ensures
            final(self).wf(),
            exists|order: Seq<int>| #[trigger]
                is_order(name_views(names@), order) && final(self)@ == old(self)@.listed(
                    name_views(names@),
                    sources@,
                    order,
                ),
    {
        let ghost before = *self;
        let ghost view = self@;
        let order = name_order(names);
        let ghost places = ints(order@);
        let ghost all = name_views(names@);
        let mut open: Option<TextPath> = None;
        std::mem::swap(&mut self.open, &mut open);
        let directory = match open {
            Some(directory) => directory,
            None => {
                return ;
            },
        };
        let ghost wanted = child_items(directory@, all, sources@, places);
        let ghost n = order@.len() as int;
        let mut i: usize = order.len();
        proof {
            assert(places.len() == n);
            assert(self@.pending == view.pending);
            assert(view.pending + wanted.take(0) == view.pending);
        }
        while i > 0
            invariant
                n == order@.len(),
                n == names@.len(),
                n == sources@.len(),
                i <= n,
                places == ints(order@),
                all == name_views(names@),
                is_order(all, places),
                wanted == child_items(directory@, all, sources@, places),
                wanted.len() == n,
                self@.pending == view.pending + wanted.take(n - i),
                self.entries@ == before.entries@,
                self.names@ == before.names@,
                self.open is None,
                self.internal == before.internal,
            decreases i,
        {
            i -= 1;
            let at: usize = order[i];
            let ghost old_pending = self.pending@;
            proof {
                assert(places[i as int] == at);
                assert(all[at as int] == names@[at as int]@);
                assert(places[n - 1 - (n - 1 - i)] == at);
            }
            let item = Pending {
                source: sources[at],
                parent: directory.copy(),
                name: Some(slice_to_vec(names[at].as_slice())),
            };
            self.pending.push(item);
            proof {
                assert(self@.pending == old_pending.map_values(|p: Pending| p@).push(item@));
                assert(wanted[n - 1 - i] == item@);
                assert(wanted.take(n - i) == wanted.take(n - 1 - i).push(item@));
                assert(self@.pending == view.pending + wanted.take(n - i));
            }
        }
        proof {
            assert(wanted.take(n) == wanted);
            assert(is_order(all, places));
            assert(self@ == view.listed(all, sources@, places));
            lemma_listed_is_valid(view, all, sources@, places);
        }
    }

    /// Ends the capture, once nothing is left to look at or to list.
    pub fn finish(self) -> (files: CapturedFiles)
        requires
            self.wf(),
            self@.open is None,
            self@.pending.len() == 0,
        ensures
            local_views(files.entries@) == self@.entries,
            files.identity == manifest_hash(manifest_of(self@.entries), times_of(self@.entries)),
            files.internal == self@.internal,
            files.wf(),
    {
        proof {
            law_captured_manifest_is_accepted(self@);
            assert(self@.entries == local_views(self.entries@));
            assert forall|i: int| 0 <= i < self.entries@.len() implies ((
            #[trigger] self.entries@[i]).source is Some <==> self.entries@[i].entry.kind
                == TransferEntryKind::File) by {
                assert(self@.entries[i] == self.entries@[i]@);
            }
        }
        let manifest = manifest_copy(&self.entries);
        let times = times_copy(&self.entries);
        let identity: u64 = manifest_identity(&manifest, &times);
        CapturedFiles { entries: self.entries, identity, internal: self.internal }
    }
}

/// Copies the manifest out of local entries.
pub fn manifest_copy(entries: &Vec<LocalEntry>) -> (manifest: Vec<TransferEntry>)
    ensures
        entry_views(manifest@) == manifest_of(local_views(entries@)),
{
    let ghost wanted = manifest_of(local_views(entries@));
    let mut manifest: Vec<TransferEntry> = Vec::new();
    let mut i: usize = 0;
    while i < entries.len()
        invariant
            i <= entries@.len(),
            wanted == manifest_of(local_views(entries@)),
            wanted.len() == entries@.len(),
            entry_views(manifest@) == wanted.take(i as int),
        decreases entries@.len() - i,
    {
        let ghost before = manifest@;
        let entry = &entries[i].entry;
        let copy = TransferEntry {
            path: entry.path.clone(),
            kind: entry.kind,
            size: entry.size,
            mode: entry.mode,
        };
        manifest.push(copy);
        proof {
            assert(local_views(entries@)[i as int] == entries@[i as int]@);
            assert(wanted[i as int] == entry@);
            assert(copy@ == entry@);
            assert(entry_views(manifest@) == entry_views(before).push(copy@));
            assert(wanted.take(i as int + 1) == wanted.take(i as int).push(wanted[i as int]));
        }
        i += 1;
    }
    proof {
        assert(wanted.take(wanted.len() as int) == wanted);
    }
    manifest
}

fn times_copy(entries: &Vec<LocalEntry>) -> (times: Vec<u128>)
    ensures
        times@ == times_of(local_views(entries@)),
{
    let ghost wanted = times_of(local_views(entries@));
    let mut times: Vec<u128> = Vec::new();
    let mut i: usize = 0;
    while i < entries.len()
        invariant
            i <= entries@.len(),
            wanted == times_of(local_views(entries@)),
            wanted.len() == entries@.len(),
            times@ == wanted.take(i as int),
        decreases entries@.len() - i,
    {
        times.push(entries[i].modified_nanos);
        proof {
            assert(local_views(entries@)[i as int] == entries@[i as int]@);
            assert(wanted.take(i as int + 1) == wanted.take(i as int).push(wanted[i as int]));
        }
        i += 1;
    }
    proof {
        assert(wanted.take(wanted.len() as int) == wanted);
    }
    times
}

impl CapturedFiles {
    /// The manifest that is sent.
    pub open spec fn manifest(self) -> Seq<EntryView> {
        manifest_of(local_views(self.entries@))
    }

    /// When each of the files and directories was last changed.
    pub open spec fn times(self) -> Seq<u128> {
        times_of(local_views(self.entries@))
    }

    /// The manifest is one that is accepted, unless it is too large, the files have
    /// sources, and the whole is known by its hash.
    pub open spec fn wf(self) -> bool {
        &&& 0 < self.entries@.len() <= MAX_MANIFEST_ENTRIES
        &&& self.identity == manifest_hash(self.manifest(), self.times())
        &&& tree_fault(self.manifest()) is None
        &&& forall|i: int|
            0 <= i < self.entries@.len() ==> ((#[trigger] self.entries@[i]).source is Some
                <==> self.entries@[i].entry.kind == TransferEntryKind::File)
    }

    /// The bytes of all the files; nothing where the sum does not fit.
    pub fn total_bytes(&self) -> (total: Option<u64>)
        ensures
            total is Some <==> total_size(self.manifest()) <= u64::MAX,
            total matches Some(total) ==> total == total_size(self.manifest()),
    {
        let manifest = manifest_copy(&self.entries);
        checked_total(&manifest)
    }
}

/// What captured files are called in messages.
pub fn files_summary(files: &CapturedFiles) -> (text: String)
    requires
        total_size(files.manifest()) <= u64::MAX,
    ensures
        text@ == manifest_summary(files.manifest()),
{
    let manifest = manifest_copy(&files.entries);
    let ghost all = entry_views(manifest@);
    let ghost n = all.len() as int;
    let mut count: usize = 0;
    let mut i: usize = 0;
    while i < manifest.len()
        invariant
            all == entry_views(manifest@),
            n == all.len(),
            i <= n,
            count <= i,
            count == file_numbers(all.take(i as int)).len(),
        decreases n - i,
    {
        proof {
            assert(all.take(i as int + 1).drop_last() == all.take(i as int));
        }
        if manifest[i].kind == TransferEntryKind::File {
            count += 1;
        }
        i += 1;
    }
    proof {
        assert(all.take(n) == all);
        lemma_file_numbers(all);
    }
    let total: u64 = match checked_total(&manifest) {
        Some(total) => total,
        None => 0,
    };
    transfer_summary(count, manifest.len() - count, total)
}

} // verus!
