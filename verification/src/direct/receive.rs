//! Receiving files in the direct mode.

use vstd::hash_set::StringHashSet;
use vstd::prelude::*;

use super::paths::{
    all_valid, components, joined, portable_all, safe_relative_path, TextPath,
};
use super::wire::{
    checked_total, entry_views, file_numbers, lemma_file_numbers, manifest_hash, manifest_identity,
    total_size, transfer_component, transfer_directory, EntryView, TransferEntry,
};
use crate::manifest::{first_fault, lemma_fault_stays, lemma_no_fault};
use crate::progress::{
    all_finished, chunk_fault, end_fault, with_chunk, with_end, FileProgress, FileView, TransferError,
};
use crate::receive::{summary_text, transfer_summary};
use crate::wire::{TransferEntryKind, MAX_MANIFEST_ENTRIES, MAX_TRANSFER_BYTES};

verus! {

/// Why a manifest is refused; a number is that of the entry at fault.
#[derive(Debug, Clone, Copy, PartialEq, Eq, Structural)]
pub enum ManifestError {
    Empty,
    TooManyEntries,
    EmptyId,
    SizeOverflow,
    TooLarge,
    InvalidPath(usize),
    DuplicatePath(usize),
    DirectorySize(usize),
    NoRoot,
}

/// Where an entry goes: the components of its path in their portable form.
pub open spec fn entry_path(entry: EntryView) -> Seq<Seq<char>> {
    portable_all(components(entry.path))
}

/// Whether an earlier entry has the path of entry `i`.
pub open spec fn repeats(entries: Seq<EntryView>, i: int) -> bool {
    exists|j: int|
        0 <= j < i && joined(#[trigger] entry_path(entries[j])) == joined(entry_path(entries[i]))
}

/// An entry whose path is invalid or taken by an earlier entry, or a directory that
/// announces a size.
pub open spec fn entry_fault(entries: Seq<EntryView>) -> spec_fn(int) -> Option<ManifestError> {
    |i: int|
        if !all_valid(components(entries[i].path)) {
            Some(ManifestError::InvalidPath(i as usize))
        } else if repeats(entries, i) {
            Some(ManifestError::DuplicatePath(i as usize))
        } else if entries[i].kind == TransferEntryKind::Directory && entries[i].size != 0 {
            Some(ManifestError::DirectorySize(i as usize))
        } else {
            None
        }
}

/// The top-level paths, in the order of the manifest.
pub open spec fn root_paths(entries: Seq<EntryView>) -> Seq<Seq<Seq<char>>>
    decreases entries.len(),
{
    if entries.len() == 0 {
        seq![]
    } else {
        let path = entry_path(entries.last());
        let before = root_paths(entries.drop_last());
        if path.len() == 1 {
            before.push(path)
        } else {
            before
        }
    }
}

/// What is wrong with the entries of a manifest, if anything is.
pub open spec fn tree_fault(entries: Seq<EntryView>) -> Option<ManifestError> {
    if first_fault(entries.len() as int, entry_fault(entries)) is Some {
        first_fault(entries.len() as int, entry_fault(entries))
    } else if root_paths(entries).len() == 0 {
        Some(ManifestError::NoRoot)
    } else {
        None
    }
}

/// Why a manifest is refused, if it is.
pub open spec fn manifest_fault(id: Seq<char>, entries: Seq<EntryView>) -> Option<ManifestError> {
    if entries.len() == 0 {
        Some(ManifestError::Empty)
    } else if entries.len() > MAX_MANIFEST_ENTRIES {
        Some(ManifestError::TooManyEntries)
    } else if id.len() == 0 {
        Some(ManifestError::EmptyId)
    } else if total_size(entries) > u64::MAX {
        Some(ManifestError::SizeOverflow)
    } else if total_size(entries) > MAX_TRANSFER_BYTES {
        Some(ManifestError::TooLarge)
    } else {
        tree_fault(entries)
    }
}

/// The views of a list of paths.
pub open spec fn path_views(paths: Seq<TextPath>) -> Seq<Seq<Seq<char>>> {
    paths.map_values(|p: TextPath| p@)
}

/// Where the entries go.
pub open spec fn entry_paths(entries: Seq<EntryView>) -> Seq<Seq<Seq<char>>> {
    entries.map_values(|e: EntryView| entry_path(e))
}

/// Whether these are the paths of the entries.
spec fn taken_paths(seen: Set<Seq<char>>, entries: Seq<EntryView>) -> bool {
    &&& forall|j: int|
        0 <= j < entries.len() ==> seen.contains(joined(#[trigger] entry_path(entries[j])))
    &&& forall|text: Seq<char>| #[trigger]
        seen.contains(text) ==> exists|j: int|
            0 <= j < entries.len() && text == joined(#[trigger] entry_path(entries[j]))
}

proof fn lemma_entry_path_len(entry: EntryView)
    ensures
        entry_path(entry).len() > 0,
{
    lemma_split_len(entry.path, seq![]);
}

proof fn lemma_split_len(path: Seq<char>, current: Seq<char>)
    ensures
        super::paths::split_from(path, current).len() > 0,
    decreases path.len(),
{
    if path.len() > 0 && path[0] != '/' && path[0] != '\\' {
        lemma_split_len(path.skip(1), current.push(path[0]));
    }
}

/// Checks the entries of a manifest and says where each goes.
fn check_tree(entries: &Vec<TransferEntry>) -> (r: Result<Vec<TextPath>, ManifestError>)
    ensures
        r is Ok <==> tree_fault(entry_views(entries@)) is None,
        r matches Ok(paths) ==> path_views(paths@) == entry_paths(entry_views(entries@)),
        r matches Err(error) ==> tree_fault(entry_views(entries@)) == Some(error),
{
    let ghost all = entry_views(entries@);
    let ghost n = all.len() as int;
    let mut paths: Vec<TextPath> = Vec::new();
    let mut seen = StringHashSet::new();
    let mut roots: bool = false;
    let mut i: usize = 0;
    proof {
        assert(path_views(paths@) == entry_paths(all).take(0));
    }
    while i < entries.len()
        invariant
            all == entry_views(entries@),
            n == all.len(),
            i <= n,
            first_fault(i as int, entry_fault(all)) is None,
            path_views(paths@) == entry_paths(all).take(i as int),
            taken_paths(seen@, all.take(i as int)),
            roots == (root_paths(all.take(i as int)).len() > 0),
        decreases n - i,
    {
        let ghost fault = entry_fault(all);
        let ghost before = all.take(i as int);
        let ghost after = all.take(i as int + 1);
        let entry = &entries[i];
        proof {
            assert(all[i as int] == entry@);
            assert(after.drop_last() == before);
        }
        let relative = match safe_relative_path(entry.path.as_str()) {
            Ok(relative) => relative,
            Err(_) => {
                proof {
                    lemma_fault_stays(n, i as int, fault);
                }
                return Err(ManifestError::InvalidPath(i));
            },
        };
        let text = relative.text();
        proof {
            assert(text@ == joined(entry_path(all[i as int])));
            if seen@.contains(text@) {
                let j = choose|j: int|
                    0 <= j < before.len() && text@ == joined(#[trigger] entry_path(before[j]));
                assert(before[j] == all[j]);
                assert(joined(entry_path(all[j])) == joined(entry_path(all[i as int])));
                assert(repeats(all, i as int));
            } else if repeats(all, i as int) {
                let j = choose|j: int|
                    0 <= j < i && joined(#[trigger] entry_path(all[j])) == joined(
                        entry_path(all[i as int]),
                    );
                assert(before[j] == all[j]);
                assert(seen@.contains(joined(entry_path(before[j]))));
            }
        }
        if seen.contains(text.as_str()) {
            proof {
                lemma_fault_stays(n, i as int, fault);
            }
            return Err(ManifestError::DuplicatePath(i));
        }
        let ghost old_seen = seen@;
        let ghost key = text@;
        seen.insert(text);
        if relative.components.len() == 1 {
            roots = true;
        }
        if entry.kind == TransferEntryKind::Directory && entry.size != 0 {
            proof {
                lemma_fault_stays(n, i as int, fault);
            }
            return Err(ManifestError::DirectorySize(i));
        }
        let ghost old_paths = paths@;
        paths.push(relative);
        proof {
            assert forall|j: int| 0 <= j < after.len() implies seen@.contains(
                joined(#[trigger] entry_path(after[j])),
            ) by {
                if j < i {
                    assert(after[j] == before[j]);
                    assert(old_seen.contains(joined(entry_path(before[j]))));
                }
            }
            assert forall|t: Seq<char>| #[trigger] seen@.contains(t) implies exists|j: int|
                0 <= j < after.len() && t == joined(#[trigger] entry_path(after[j])) by {
                if t == key {
                    assert(after[i as int] == all[i as int]);
                    assert(t == joined(entry_path(after[i as int])));
                } else {
                    assert(old_seen.contains(t));
                    let j = choose|j: int|
                        0 <= j < before.len() && t == joined(#[trigger] entry_path(before[j]));
                    assert(after[j] == before[j]);
                    assert(t == joined(entry_path(after[j])));
                }
            }
            assert(path_views(paths@) == path_views(old_paths).push(relative@));
            assert(entry_paths(all).take(i as int + 1) == entry_paths(all).take(i as int).push(
                entry_path(all[i as int]),
            ));
        }
        i += 1;
    }
    proof {
        assert(all.take(n) == all);
        assert(entry_paths(all).take(n) == entry_paths(all));
    }
    if !roots {
        return Err(ManifestError::NoRoot);
    }
    Ok(paths)
}

/// What has come in of a transfer.
pub ghost struct TransferView {
    /// The name of the directory that it is put in.
    pub directory: Seq<char>,
    pub entries: Seq<EntryView>,
    pub files: Seq<FileView>,
}

/// A transfer of which nothing has come in.
pub open spec fn started(directory: Seq<char>, entries: Seq<EntryView>) -> TransferView {
    TransferView {
        directory,
        entries,
        files: file_numbers(entries).map_values(
            |number: int| FileView::awaited(number, entries[number].size as nat),
        ),
    }
}

impl TransferView {
    /// The manifest is one that is accepted, every file belongs to its entry, and
    /// none is longer than announced; what is finished is complete.
    pub open spec fn valid(self) -> bool {
        &&& tree_fault(self.entries) is None
        &&& total_size(self.entries) <= MAX_TRANSFER_BYTES
        &&& self.files.len() == file_numbers(self.entries).len()
        &&& forall|i: int|
            0 <= i < self.files.len() ==> {
                let file = #[trigger] self.files[i];
                &&& file.valid()
                &&& file.entry == file_numbers(self.entries)[i]
                &&& file.expected == self.entries[file.entry].size
            }
    }

    /// Why a chunk is refused, if it is.
    pub open spec fn chunk_fault(self, index: u32, offset: u64, bytes: Seq<u8>) -> Option<
        TransferError,
    > {
        chunk_fault(self.files, index, offset, bytes)
    }

    /// The transfer with a chunk put at the end of a file.
    pub open spec fn with_chunk(self, index: u32, bytes: Seq<u8>) -> TransferView {
        TransferView { files: with_chunk(self.files, index, bytes), ..self }
    }

    /// Why the end of a file is refused, if it is.
    pub open spec fn end_fault(self, index: u32, digest: Seq<u8>) -> Option<TransferError> {
        end_fault(self.files, index, digest)
    }

    /// The transfer with a file finished.
    pub open spec fn with_end(self, index: u32) -> TransferView {
        TransferView { files: with_end(self.files, index), ..self }
    }

    /// Whether every file is finished.
    pub open spec fn complete(self) -> bool {
        all_finished(self.files)
    }
}

/// A transfer that is coming in.
pub struct IncomingTransfer {
    directory: String,
    entries: Vec<TransferEntry>,
    paths: Vec<TextPath>,
    files: FileProgress,
    total: u64,
}

impl View for IncomingTransfer {
    type V = TransferView;

    closed spec fn view(&self) -> TransferView {
        TransferView {
            directory: self.directory@,
            entries: entry_views(self.entries@),
            files: self.files@,
        }
    }
}

/// What a manifest is called in messages.
pub open spec fn manifest_summary(entries: Seq<EntryView>) -> Seq<char> {
    summary_text(
        file_numbers(entries).len(),
        (entries.len() - file_numbers(entries).len()) as nat,
        total_size(entries),
    )
}

/// A transfer that has come in whole: what is left to do with it.
pub struct FinishedTransfer {
    /// By which the files are known again when they appear on the clipboard.
    pub fingerprint: u64,
    /// The paths to put on the clipboard, inside the directory.
    pub roots: Vec<TextPath>,
    /// The permissions to restore, in this order.
    pub modes: Vec<(TextPath, u32)>,
    pub directory: String,
}

/// The permissions to restore: those of the last entry first, so that a
/// directory is closed after what it holds.
pub open spec fn mode_changes(entries: Seq<EntryView>) -> Seq<(Seq<Seq<char>>, u32)>
    decreases entries.len(),
{
    if entries.len() == 0 {
        seq![]
    } else {
        let rest = mode_changes(entries.drop_last());
        match entries.last().mode {
            None => rest,
            Some(mode) => seq![(entry_path(entries.last()), mode)] + rest,
        }
    }
}

/// The views of a list of permissions to restore.
pub open spec fn mode_views(modes: Seq<(TextPath, u32)>) -> Seq<(Seq<Seq<char>>, u32)> {
    modes.map_values(|m: (TextPath, u32)| (m.0@, m.1))
}

impl IncomingTransfer {
    /// The parts fit each other.
    pub closed spec fn wf(self) -> bool {
        &&& self@.valid()
        &&& self.total == total_size(entry_views(self.entries@))
        &&& path_views(self.paths@) == entry_paths(entry_views(self.entries@))
        &&& self.files.wf()
    }

    /// Begins a transfer. The manifest is refused if it is empty, too long or too
    /// large, if its identifier is empty, or if its paths are invalid or repeat.
    pub fn start(id: &str, entries: Vec<TransferEntry>) -> (r: Result<
        IncomingTransfer,
        ManifestError,
    >)
        ensures
            r is Ok <==> manifest_fault(id@, entry_views(entries@)) is None,
            r matches Err(error) ==> manifest_fault(id@, entry_views(entries@)) == Some(error),
            r matches Ok(transfer) ==> transfer.wf() && transfer@ == started(
                transfer_directory(id@),
                entry_views(entries@),
            ),
    {
        if entries.len() == 0 {
            return Err(ManifestError::Empty);
        }
        if entries.len() > MAX_MANIFEST_ENTRIES {
            return Err(ManifestError::TooManyEntries);
        }
        if id.is_empty() {
            return Err(ManifestError::EmptyId);
        }
        let total: u64 = match checked_total(&entries) {
            Some(total) => total,
            None => {
                return Err(ManifestError::SizeOverflow);
            },
        };
        if total > MAX_TRANSFER_BYTES {
            return Err(ManifestError::TooLarge);
        }
        let directory = transfer_component(id);
        IncomingTransfer::start_inner(directory, entries, total)
    }

    fn start_inner(directory: String, entries: Vec<TransferEntry>, total: u64) -> (r: Result<
        IncomingTransfer,
        ManifestError,
    >)
        requires
            total == total_size(entry_views(entries@)),
            total <= MAX_TRANSFER_BYTES,
        ensures
            r is Ok <==> tree_fault(entry_views(entries@)) is None,
            r matches Err(error) ==> tree_fault(entry_views(entries@)) == Some(error),
            r matches Ok(transfer) ==> transfer.wf() && transfer@ == started(
                directory@,
                entry_views(entries@),
            ),
    {
        let paths = match check_tree(&entries) {
            Ok(paths) => paths,
            Err(error) => {
                return Err(error);
            },
        };
        let mut files = FileProgress::new();
        let ghost all = entry_views(entries@);
        let ghost n = all.len() as int;
        let mut i: usize = 0;
        while i < entries.len()
            invariant
                all == entry_views(entries@),
                n == all.len(),
                i <= n,
                files.wf(),
                files@.len() == file_numbers(all.take(i as int)).len(),
                forall|k: int|
                    0 <= k < files@.len() ==> #[trigger] files@[k] == FileView::awaited(
                        file_numbers(all.take(i as int))[k],
                        all[file_numbers(all.take(i as int))[k]].size as nat,
                    ),
            decreases n - i,
        {
            proof {
                assert(all.take(i as int + 1).drop_last() == all.take(i as int));
                lemma_file_numbers(all.take(i as int));
            }
            if entries[i].kind == TransferEntryKind::File {
                files.push(i, entries[i].size);
            }
            i += 1;
        }
        let transfer = IncomingTransfer { directory, entries, paths, files, total };
        proof {
            assert(all.take(n) == all);
            let view = transfer@;
            assert(view.files == started(directory@, all).files);
            lemma_file_numbers(all);
            assert forall|k: int| 0 <= k < view.files.len() implies {
                let file = #[trigger] view.files[k];
                &&& file.valid()
                &&& file.entry == file_numbers(all)[k]
                &&& file.expected == all[file.entry].size
            } by {
                assert(view.files[k] == FileView::awaited(
                    file_numbers(all)[k],
                    all[file_numbers(all)[k]].size as nat,
                ));
            }
        }
        Ok(transfer)
    }

    /// Takes one chunk of a file. The answer says whether the file has to be made
    /// first; a refused chunk changes nothing.
    pub fn accept_chunk(&mut self, file_index: u32, offset: u64, bytes: &[u8]) -> (r: Result<
        bool,
        TransferError,
    >)
        requires
            old(self).wf(),
        ensures
            final(self).wf(),
            r is Ok <==> old(self)@.chunk_fault(file_index, offset, bytes@) is None,
            r matches Ok(create) ==> final(self)@ == old(self)@.with_chunk(file_index, bytes@)
                && create == (offset == 0),
            r matches Err(error) ==> *final(self) == *old(self) && old(self)@.chunk_fault(
                file_index,
                offset,
                bytes@,
            ) == Some(error),
    {
        let ghost before = self@;
        let r = self.files.accept_chunk(file_index, offset, bytes);
        proof {
            self.files.lemma_valid();
            assert(self@.entries == before.entries);
            assert forall|k: int| 0 <= k < self@.files.len() implies {
                let f = #[trigger] self@.files[k];
                &&& f.valid()
                &&& f.entry == file_numbers(self@.entries)[k]
                &&& f.expected == self@.entries[f.entry].size
            } by {
                let b = before.files[k];
            }
        }
        r
    }

    /// Ends one file: it is complete, and its digest is the one announced. The
    /// answer says whether the file has to be made first, being empty; a refused
    /// end changes nothing.
    pub fn finish_file(&mut self, file_index: u32, expected_sha256: [u8; 32]) -> (r: Result<
        bool,
        TransferError,
    >)
        requires
            old(self).wf(),
        ensures
            final(self).wf(),
            r is Ok <==> old(self)@.end_fault(file_index, expected_sha256@) is None,
            r matches Ok(create) ==> final(self)@ == old(self)@.with_end(file_index) && create == (
            old(self)@.files[file_index as int].received.len() == 0),
            r matches Err(error) ==> *final(self) == *old(self) && old(self)@.end_fault(
                file_index,
                expected_sha256@,
            ) == Some(error),
    {
        let ghost before = self@;
        let r = self.files.finish_file(file_index, expected_sha256);
        proof {
            self.files.lemma_valid();
            assert(self@.entries == before.entries);
            assert forall|k: int| 0 <= k < self@.files.len() implies {
                let f = #[trigger] self@.files[k];
                &&& f.valid()
                &&& f.entry == file_numbers(self@.entries)[k]
                &&& f.expected == self@.entries[f.entry].size
            } by {
                let b = before.files[k];
            }
        }
        r
    }

    /// Whether every file is finished.
    pub fn all_finished(&self) -> (r: bool)
        ensures
            r == self@.complete(),
    {
        self.files.is_complete()
    }

    /// Ends the transfer, given when each of its entries was last changed on disk.
    pub fn finish(self, modified: &Vec<u128>) -> (r: Result<FinishedTransfer, TransferError>)
        requires
            self.wf(),
            modified@.len() == self@.entries.len(),
        ensures
            r is Ok <==> self@.complete(),
            r matches Err(error) ==> error == TransferError::Unfinished,
            r matches Ok(finished) ==> {
                &&& finished.fingerprint == manifest_hash(self@.entries, modified@)
                &&& path_views(finished.roots@) == root_paths(self@.entries)
                &&& mode_views(finished.modes@) == mode_changes(self@.entries)
                &&& finished.directory@ == self@.directory
            },
    {
        if !self.all_finished() {
            return Err(TransferError::Unfinished);
        }
        let fingerprint: u64 = manifest_identity(&self.entries, modified);
        let roots = self.roots();
        let modes = self.modes();
        Ok(FinishedTransfer { fingerprint, roots, modes, directory: self.directory })
    }

    /// The top-level paths, inside the transfer's directory.
    pub fn roots(&self) -> (roots: Vec<TextPath>)
        requires
            self.wf(),
        ensures
            path_views(roots@) == root_paths(self@.entries),
    {
        let ghost all = entry_views(self.entries@);
        let ghost n = all.len() as int;
        let mut roots: Vec<TextPath> = Vec::new();
        let mut i: usize = 0;
        proof {
            assert(self.paths@.len() == path_views(self.paths@).len());
            assert(entry_paths(all).len() == n);
            assert(path_views(roots@) == root_paths(all.take(0)));
        }
        while i < self.paths.len()
            invariant
                all == entry_views(self.entries@),
                n == all.len(),
                i <= n,
                self.paths@.len() == n,
                path_views(self.paths@) == entry_paths(all),
                path_views(roots@) == root_paths(all.take(i as int)),
            decreases n - i,
        {
            proof {
                assert(path_views(self.paths@)[i as int] == entry_paths(all)[i as int]);
                assert(all.take(i as int + 1).drop_last() == all.take(i as int));
            }
            if self.paths[i].components.len() == 1 {
                let ghost before = roots@;
                let root = self.paths[i].copy();
                roots.push(root);
                proof {
                    assert(path_views(roots@) == path_views(before).push(root@));
                }
            }
            i += 1;
        }
        proof {
            assert(all.take(n) == all);
        }
        roots
    }

    /// The permissions to restore, in order.
    pub fn modes(&self) -> (modes: Vec<(TextPath, u32)>)
        requires
            self.wf(),
        ensures
            mode_views(modes@) == mode_changes(self@.entries),
    {
        let ghost all = entry_views(self.entries@);
        let ghost n = all.len() as int;
        let mut modes: Vec<(TextPath, u32)> = Vec::new();
        let mut i: usize = self.entries.len();
        proof {
            assert(self.paths@.len() == path_views(self.paths@).len());
            assert(entry_paths(all).len() == n);
            assert(all.take(n) == all);
            assert(mode_views(modes@) + mode_changes(all) == mode_changes(all));
        }
        while i > 0
            invariant
                all == entry_views(self.entries@),
                n == all.len(),
                i <= n,
                self.paths@.len() == n,
                path_views(self.paths@) == entry_paths(all),
                mode_views(modes@) + mode_changes(all.take(i as int)) == mode_changes(all),
            decreases i,
        {
            i -= 1;
            let ghost before = modes@;
            proof {
                assert(path_views(self.paths@)[i as int] == entry_paths(all)[i as int]);
                assert(all.take(i as int + 1).drop_last() == all.take(i as int));
            }
            if let Some(mode) = self.entries[i].mode {
                let path = self.paths[i].copy();
                modes.push((path, mode));
                proof {
                    assert(mode_views(modes@) == mode_views(before).push((path@, mode)));
                    assert(mode_views(before) + (seq![(path@, mode)] + mode_changes(
                        all.take(i as int),
                    )) == mode_views(modes@) + mode_changes(all.take(i as int)));
                }
            }
        }
        proof {
            assert(mode_changes(all.take(0)) == Seq::<(Seq<Seq<char>>, u32)>::empty());
            assert(mode_views(modes@) + mode_changes(all.take(0)) == mode_views(modes@));
        }
        modes
    }

    /// The directories to make before anything comes in, in order: each
    /// directory of the manifest, and the one that each file lies in.
    pub fn directories(&self) -> (directories: Vec<TextPath>)
        requires
            self.wf(),
        ensures
            path_views(directories@) == self@.entries.map_values(
                |e: EntryView|
                    match e.kind {
                        TransferEntryKind::Directory => entry_path(e),
                        TransferEntryKind::File => entry_path(e).drop_last(),
                    },
            ),
    {
        let ghost all = entry_views(self.entries@);
        let ghost n = all.len() as int;
        let ghost wanted = all.map_values(
            |e: EntryView|
                match e.kind {
                    TransferEntryKind::Directory => entry_path(e),
                    TransferEntryKind::File => entry_path(e).drop_last(),
                },
        );
        let mut directories: Vec<TextPath> = Vec::new();
        let mut i: usize = 0;
        proof {
            assert(self.paths@.len() == path_views(self.paths@).len());
            assert(entry_paths(all).len() == n);
            assert(path_views(directories@) == wanted.take(0));
            lemma_no_fault(n, entry_fault(all));
        }
        while i < self.paths.len()
            invariant
                all == entry_views(self.entries@),
                n == all.len(),
                i <= n,
                self.paths@.len() == n,
                path_views(self.paths@) == entry_paths(all),
                forall|k: int| 0 <= k < n ==> #[trigger] entry_fault(all)(k) is None,
                wanted == all.map_values(
                    |e: EntryView|
                        match e.kind {
                            TransferEntryKind::Directory => entry_path(e),
                            TransferEntryKind::File => entry_path(e).drop_last(),
                        },
                ),
                path_views(directories@) == wanted.take(i as int),
            decreases n - i,
        {
            let ghost before = directories@;
            let mut path = self.paths[i].copy();
            let ghost whole = path@;
            proof {
                assert(path_views(self.paths@)[i as int] == entry_paths(all)[i as int]);
            }
            proof {
                lemma_entry_path_len(all[i as int]);
            }
            if self.entries[i].kind == TransferEntryKind::File {
                path.components.pop();
                proof {
                    assert(path@ == whole.drop_last());
                }
            }
            directories.push(path);
            proof {
                assert(path_views(directories@) == path_views(before).push(path@));
                assert(wanted.take(i as int + 1) == wanted.take(i as int).push(wanted[i as int]));
            }
            i += 1;
        }
        proof {
            assert(wanted.take(n) == wanted);
        }
        directories
    }

    /// Where each entry goes, inside the transfer's directory.
    pub fn paths(&self) -> (paths: &Vec<TextPath>)
        requires
            self.wf(),
        ensures
            path_views(paths@) == entry_paths(self@.entries),
    {
        &self.paths
    }

    /// The name of the directory that the transfer is put in.
    pub fn directory(&self) -> (directory: &str)
        ensures
            directory@ == self@.directory,
    {
        self.directory.as_str()
    }

    /// The manifest entry of a file.
    pub fn entry_of(&self, file_index: u32) -> (entry: Option<usize>)
        ensures
            entry is Some <==> file_index < self@.files.len(),
            entry matches Some(entry) ==> entry == self@.files[file_index as int].entry,
    {
        self.files.entry_of(file_index)
    }

    /// The bytes that the manifest announces.
    pub fn total_bytes(&self) -> (total: u64)
        requires
            self.wf(),
        ensures
            total == total_size(self@.entries),
            total <= MAX_TRANSFER_BYTES,
    {
        self.total
    }

    /// What the transfer is called in messages.
    pub fn summary(&self) -> (text: String)
        requires
            self.wf(),
        ensures
            text@ == manifest_summary(self@.entries),
    {
        proof {
            lemma_file_numbers(entry_views(self.entries@));
        }
        transfer_summary(self.files.len(), self.entries.len() - self.files.len(), self.total)
    }
}

} // verus!
