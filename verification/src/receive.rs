//! Receiving files: what has come in of a transfer, and what each message about
//! it does.

use vstd::prelude::*;
use vstd::string::StringExecFns;

use crate::fingerprint::{manifest_hash, manifest_identity, transfer_component, transfer_directory};
use crate::manifest::{
    bulk_fault, check_bulk, check_tree, entry_path, entry_paths, file_numbers,
    lemma_entry_path_valid, lemma_no_fault, manifest_fault, path_fault, path_views, root_paths,
    tree_fault, ManifestError,
};
use crate::paths::RelativePath;
use crate::progress::{
    all_finished, chunk_fault, end_fault, with_chunk, with_end, FileProgress, FileView, TransferError,
};
use crate::text::{decimal, decimal_text};
use crate::units::{bytes_text, format_bytes};
use crate::wire::{
    entry_views, total_size, EntryView, TransferEntry, TransferEntryKind,
    CACHE_MAX_AGE, MAX_TRANSFER_BYTES,
};

verus! {

/// What has come in of a transfer.
pub ghost struct TransferView {
    /// The name of the directory that it is put in.
    pub directory: Seq<char>,
    pub entries: Seq<EntryView>,
    pub files: Seq<FileView>,
}

/// A transfer of which nothing has come in.
pub open spec fn started(directory: Seq<char>, entries: Seq<EntryView>) -> TransferView {
    TransferView {
        directory,
        entries,
        files: file_numbers(entries).map_values(
            |number: int| FileView::awaited(number, entries[number].size as nat),
        ),
    }
}

impl TransferView {
    /// The manifest is one that is accepted, every file belongs to its entry, and
    /// none is longer than announced; what is finished is complete.
    pub open spec fn valid(self) -> bool {
        &&& manifest_fault(self.entries) is None
        &&& self.files.len() == file_numbers(self.entries).len()
        &&& forall|i: int|
            0 <= i < self.files.len() ==> {
                let file = #[trigger] self.files[i];
                &&& file.valid()
                &&& file.entry == file_numbers(self.entries)[i]
                &&& file.expected == self.entries[file.entry].size
            }
    }

    /// Why a chunk is refused, if it is.
    pub open spec fn chunk_fault(self, index: u32, offset: u64, bytes: Seq<u8>) -> Option<
        TransferError,
    > {
        chunk_fault(self.files, index, offset, bytes)
    }

    /// The transfer with a chunk put at the end of a file.
    pub open spec fn with_chunk(self, index: u32, bytes: Seq<u8>) -> TransferView {
        TransferView { files: with_chunk(self.files, index, bytes), ..self }
    }

    /// Why the end of a file is refused, if it is.
    pub open spec fn end_fault(self, index: u32, digest: Seq<u8>) -> Option<TransferError> {
        end_fault(self.files, index, digest)
    }

    /// The transfer with a file finished.
    pub open spec fn with_end(self, index: u32) -> TransferView {
        TransferView { files: with_end(self.files, index), ..self }
    }

    /// Whether every file is finished.
    pub open spec fn complete(self) -> bool {
        all_finished(self.files)
    }
}

/// A transfer that is coming in.
pub struct IncomingTransfer {
    directory: String,
    entries: Vec<TransferEntry>,
    paths: Vec<RelativePath>,
    files: FileProgress,
    total: u64,
}

impl View for IncomingTransfer {
    type V = TransferView;

    closed spec fn view(&self) -> TransferView {
        TransferView {
            directory: self.directory@,
            entries: entry_views(self.entries@),
            files: self.files@,
        }
    }
}

/// A transfer that has come in whole: what is left to do with it.
pub struct FinishedTransfer {
    /// By which the files are known again when they appear on the clipboard.
    pub fingerprint: u64,
    /// The paths to put on the clipboard, inside the directory.
    pub roots: Vec<RelativePath>,
    /// The permissions to restore, in this order.
    pub modes: Vec<(RelativePath, u32)>,
    pub directory: String,
}

/// The permissions to restore: those of the last entry first, so that a
/// directory is closed after what it holds.
pub open spec fn mode_changes(entries: Seq<EntryView>) -> Seq<(Seq<Seq<u8>>, u32)>
    decreases entries.len(),
{
    if entries.len() == 0 {
        seq![]
    } else {
        let rest = mode_changes(entries.drop_last());
        match entries.last().mode {
            None => rest,
            Some(mode) => seq![(entry_path(entries.last()), mode)] + rest,
        }
    }
}

/// The views of a list of permissions to restore.
pub open spec fn mode_views(modes: Seq<(RelativePath, u32)>) -> Seq<(Seq<Seq<u8>>, u32)> {
    modes.map_values(|m: (RelativePath, u32)| (m.0@, m.1))
}

/// What a transfer is called in messages: its files, its directories and its size.
pub open spec fn summary_text(files: nat, directories: nat, total: nat) -> Seq<char> {
    decimal(files) + " 个文件、"@ + decimal(directories) + " 个目录（"@ + bytes_text(total) + "）"@
}

/// What a manifest is called in messages.
pub open spec fn manifest_summary(entries: Seq<EntryView>) -> Seq<char> {
    summary_text(
        file_numbers(entries).len(),
        (entries.len() - file_numbers(entries).len()) as nat,
        total_size(entries),
    )
}

/// There are no more files than entries, and their numbers are those of entries
/// that are files, in increasing order.
pub proof fn lemma_file_numbers(entries: Seq<EntryView>)
    ensures
        file_numbers(entries).len() <= entries.len(),
        forall|i: int|
            0 <= i < file_numbers(entries).len() ==> 0 <= #[trigger] file_numbers(entries)[i]
                < entries.len() && entries[file_numbers(entries)[i]].kind == TransferEntryKind::File,
    decreases entries.len(),
{
    if entries.len() > 0 {
        let before = entries.drop_last();
        lemma_file_numbers(before);
        assert forall|i: int| 0 <= i < file_numbers(entries).len() implies 0
            <= #[trigger] file_numbers(entries)[i] < entries.len()
            && entries[file_numbers(entries)[i]].kind == TransferEntryKind::File by {
            if i < file_numbers(before).len() {
                assert(file_numbers(entries)[i] == file_numbers(before)[i]);
                assert(before[file_numbers(before)[i]] == entries[file_numbers(before)[i]]);
            }
        }
    }
}

/// Writes what a transfer is called in messages.
pub fn transfer_summary(files: usize, directories: usize, total: u64) -> (text: String)
    ensures
        text@ == summary_text(files as nat, directories as nat, total as nat),
{
    let mut text = decimal_text(files as u128);
    text.append(" 个文件、");
    let count = decimal_text(directories as u128);
    text.append(count.as_str());
    text.append(" 个目录（");
    let bytes = format_bytes(total);
    text.append(bytes.as_str());
    text.append("）");
    text
}

impl IncomingTransfer {
    /// The parts fit each other.
    pub closed spec fn wf(self) -> bool {
        &&& self@.valid()
        &&& self.total == total_size(entry_views(self.entries@))
        &&& path_views(self.paths@) == entry_paths(entry_views(self.entries@))
        &&& self.files.wf()
    }

    /// Begins a transfer. The manifest is refused if it is empty, too long, too
    /// large, or if its paths are not the paths of a tree.
    pub fn start(id: &str, cache_scope: &str, entries: Vec<TransferEntry>) -> (r: Result<
        IncomingTransfer,
        ManifestError,
    >)
        ensures
            r is Ok <==> manifest_fault(entry_views(entries@)) is None,
            r matches Err(error) ==> manifest_fault(entry_views(entries@)) == Some(error),
            r matches Ok(transfer) ==> transfer.wf() && transfer@ == started(
                transfer_directory(cache_scope@.push('-') + id@),
                entry_views(entries@),
            ),
    {
        let total: u64 = match check_bulk(&entries) {
            Ok(total) => total,
            Err(error) => {
                return Err(error);
            },
        };
        let mut name = String::from_str(cache_scope);
        name.push('-');
        name.append(id);
        let directory = transfer_component(name.as_str());
        IncomingTransfer::start_inner(directory, entries, total)
    }

    fn start_inner(directory: String, entries: Vec<TransferEntry>, total: u64) -> (r: Result<
        IncomingTransfer,
        ManifestError,
    >)
        requires
            bulk_fault(entry_views(entries@)) is None,
            total == total_size(entry_views(entries@)),
        ensures
            r is Ok <==> tree_fault(entry_views(entries@)) is None,
            r matches Err(error) ==> tree_fault(entry_views(entries@)) == Some(error),
            r matches Ok(transfer) ==> transfer.wf() && transfer@ == started(directory@, entry_views(entries@)),
    {
        let paths = match check_tree(&entries) {
            Ok(paths) => paths,
            Err(error) => {
                return Err(error);
            },
        };
        let mut files = FileProgress::new();
        let ghost all = entry_views(entries@);
        let ghost n = all.len() as int;
        let mut i: usize = 0;
        while i < entries.len()
            invariant
                all == entry_views(entries@),
                n == all.len(),
                i <= n,
                files.wf(),
                files@.len() == file_numbers(all.take(i as int)).len(),
                forall|k: int|
                    0 <= k < files@.len() ==> #[trigger] files@[k] == FileView::awaited(
                        file_numbers(all.take(i as int))[k],
                        all[file_numbers(all.take(i as int))[k]].size as nat,
                    ),
            decreases n - i,
        {
            proof {
                assert(all.take(i as int + 1).drop_last() == all.take(i as int));
                lemma_file_numbers(all.take(i as int));
            }
            if entries[i].kind == TransferEntryKind::File {
                files.push(i, entries[i].size);
            }
            i += 1;
        }
        let transfer = IncomingTransfer { directory, entries, paths, files, total };
        proof {
            assert(all.take(n) == all);
            let view = transfer@;
            assert(view.files == started(directory@, all).files);
            lemma_file_numbers(all);
            assert forall|k: int| 0 <= k < view.files.len() implies {
                let file = #[trigger] view.files[k];
                &&& file.valid()
                &&& file.entry == file_numbers(all)[k]
                &&& file.expected == all[file.entry].size
            } by {
                assert(view.files[k] == FileView::awaited(
                    file_numbers(all)[k],
                    all[file_numbers(all)[k]].size as nat,
                ));
            }
        }
        Ok(transfer)
    }

    /// Takes one chunk of a file. The answer says whether the file has to be made
    /// first; a refused chunk changes nothing.
    pub fn accept_chunk(&mut self, file_index: u32, offset: u64, bytes: &[u8]) -> (r: Result<
        bool,
        TransferError,
    >)
        requires
            old(self).wf(),
        ensures
            final(self).wf(),
            r is Ok <==> old(self)@.chunk_fault(file_index, offset, bytes@) is None,
            r matches Ok(create) ==> final(self)@ == old(self)@.with_chunk(file_index, bytes@)
                && create == (offset == 0),
            r matches Err(error) ==> *final(self) == *old(self) && old(self)@.chunk_fault(
                file_index,
                offset,
                bytes@,
            ) == Some(error),
    {
        let ghost before = self@;
        let r = self.files.accept_chunk(file_index, offset, bytes);
        proof {
            self.files.lemma_valid();
            assert(self@.entries == before.entries);
            assert forall|k: int| 0 <= k < self@.files.len() implies {
                let f = #[trigger] self@.files[k];
                &&& f.valid()
                &&& f.entry == file_numbers(self@.entries)[k]
                &&& f.expected == self@.entries[f.entry].size
            } by {
                let b = before.files[k];
            }
        }
        r
    }

    /// Ends one file: it is complete, and its digest is the one announced. The
    /// answer says whether the file has to be made first, being empty; a refused
    /// end changes nothing.
    pub fn finish_file(&mut self, file_index: u32, expected_sha256: [u8; 32]) -> (r: Result<
        bool,
        TransferError,
    >)
        requires
            old(self).wf(),
        ensures
            final(self).wf(),
            r is Ok <==> old(self)@.end_fault(file_index, expected_sha256@) is None,
            r matches Ok(create) ==> final(self)@ == old(self)@.with_end(file_index) && create == (
            old(self)@.files[file_index as int].received.len() == 0),
            r matches Err(error) ==> *final(self) == *old(self) && old(self)@.end_fault(
                file_index,
                expected_sha256@,
            ) == Some(error),
    {
        let ghost before = self@;
        let r = self.files.finish_file(file_index, expected_sha256);
        proof {
            self.files.lemma_valid();
            assert(self@.entries == before.entries);
            assert forall|k: int| 0 <= k < self@.files.len() implies {
                let f = #[trigger] self@.files[k];
                &&& f.valid()
                &&& f.entry == file_numbers(self@.entries)[k]
                &&& f.expected == self@.entries[f.entry].size
            } by {
                let b = before.files[k];
            }
        }
        r
    }

    /// Whether every file is finished.
    pub fn all_finished(&self) -> (r: bool)
        ensures
            r == self@.complete(),
    {
        self.files.is_complete()
    }

    /// Ends the transfer, given when each of its entries was last changed on disk.
    pub fn finish(self, modified: &Vec<u128>) -> (r: Result<FinishedTransfer, TransferError>)
        requires
            self.wf(),
            modified@.len() == self@.entries.len(),
        ensures
            r is Ok <==> self@.complete(),
            r matches Err(error) ==> error == TransferError::Unfinished,
            r matches Ok(finished) ==> {
                &&& finished.fingerprint == manifest_hash(self@.entries, modified@)
                &&& path_views(finished.roots@) == root_paths(self@.entries)
                &&& mode_views(finished.modes@) == mode_changes(self@.entries)
                &&& finished.directory@ == self@.directory
            },
    {
        if !self.all_finished() {
            return Err(TransferError::Unfinished);
        }
        let fingerprint: u64 = manifest_identity(&self.entries, modified);
        let roots = self.roots();
        let modes = self.modes();
        Ok(FinishedTransfer { fingerprint, roots, modes, directory: self.directory })
    }

    /// The top-level paths, inside the transfer's directory.
    pub fn roots(&self) -> (roots: Vec<RelativePath>)
        requires
            self.wf(),
        ensures
            path_views(roots@) == root_paths(self@.entries),
    {
        let ghost all = entry_views(self.entries@);
        let ghost n = all.len() as int;
        let mut roots: Vec<RelativePath> = Vec::new();
        let mut i: usize = 0;
        proof {
            assert(self.paths@.len() == path_views(self.paths@).len());
            assert(entry_paths(all).len() == n);
            assert(path_views(roots@) == root_paths(all.take(0)));
        }
        while i < self.paths.len()
            invariant
                all == entry_views(self.entries@),
                n == all.len(),
                i <= n,
                self.paths@.len() == n,
                path_views(self.paths@) == entry_paths(all),
                path_views(roots@) == root_paths(all.take(i as int)),
            decreases n - i,
        {
            proof {
                assert(path_views(self.paths@)[i as int] == entry_paths(all)[i as int]);
                assert(all.take(i as int + 1).drop_last() == all.take(i as int));
            }
            if self.paths[i].components.len() == 1 {
                let ghost before = roots@;
                let root = self.paths[i].copy();
                roots.push(root);
                proof {
                    assert(path_views(roots@) == path_views(before).push(root@));
                }
            }
            i += 1;
        }
        proof {
            assert(all.take(n) == all);
        }
        roots
    }

    /// The permissions to restore, in order.
    pub fn modes(&self) -> (modes: Vec<(RelativePath, u32)>)
        requires
            self.wf(),
        ensures
            mode_views(modes@) == mode_changes(self@.entries),
    {
        let ghost all = entry_views(self.entries@);
        let ghost n = all.len() as int;
        let mut modes: Vec<(RelativePath, u32)> = Vec::new();
        let mut i: usize = self.entries.len();
        proof {
            assert(self.paths@.len() == path_views(self.paths@).len());
            assert(entry_paths(all).len() == n);
            assert(all.take(n) == all);
            assert(mode_views(modes@) + mode_changes(all) == mode_changes(all));
        }
        while i > 0
            invariant
                all == entry_views(self.entries@),
                n == all.len(),
                i <= n,
                self.paths@.len() == n,
                path_views(self.paths@) == entry_paths(all),
                mode_views(modes@) + mode_changes(all.take(i as int)) == mode_changes(all),
            decreases i,
        {
            i -= 1;
            let ghost before = modes@;
            proof {
                assert(path_views(self.paths@)[i as int] == entry_paths(all)[i as int]);
                assert(all.take(i as int + 1).drop_last() == all.take(i as int));
            }
            if let Some(mode) = self.entries[i].mode {
                let path = self.paths[i].copy();
                modes.push((path, mode));
                proof {
                    assert(mode_views(modes@) == mode_views(before).push((path@, mode)));
                    assert(mode_views(before) + (seq![(path@, mode)] + mode_changes(
                        all.take(i as int),
                    )) == mode_views(modes@) + mode_changes(all.take(i as int)));
                }
            }
        }
        proof {
            assert(mode_changes(all.take(0)) == Seq::<(Seq<Seq<u8>>, u32)>::empty());
            assert(mode_views(modes@) + mode_changes(all.take(0)) == mode_views(modes@));
        }
        modes
    }

    /// The directories to make before anything comes in, in order: each
    /// directory of the manifest, and the one that each file lies in.
    pub fn directories(&self) -> (directories: Vec<RelativePath>)
        requires
            self.wf(),
        ensures
            path_views(directories@) == self@.entries.map_values(
                |e: EntryView|
                    match e.kind {
                        TransferEntryKind::Directory => entry_path(e),
                        TransferEntryKind::File => entry_path(e).drop_last(),
                    },
            ),
    {
        let ghost all = entry_views(self.entries@);
        let ghost n = all.len() as int;
        let ghost wanted = all.map_values(
            |e: EntryView|
                match e.kind {
                    TransferEntryKind::Directory => entry_path(e),
                    TransferEntryKind::File => entry_path(e).drop_last(),
                },
        );
        let mut directories: Vec<RelativePath> = Vec::new();
        let mut i: usize = 0;
        proof {
            assert(self.paths@.len() == path_views(self.paths@).len());
            assert(entry_paths(all).len() == n);
            assert(path_views(directories@) == wanted.take(0));
            lemma_no_fault(n, path_fault(all));
        }
        while i < self.paths.len()
            invariant
                all == entry_views(self.entries@),
                n == all.len(),
                i <= n,
                self.paths@.len() == n,
                path_views(self.paths@) == entry_paths(all),
                forall|k: int| 0 <= k < n ==> #[trigger] path_fault(all)(k) is None,
                wanted == all.map_values(
                    |e: EntryView|
                        match e.kind {
                            TransferEntryKind::Directory => entry_path(e),
                            TransferEntryKind::File => entry_path(e).drop_last(),
                        },
                ),
                path_views(directories@) == wanted.take(i as int),
            decreases n - i,
        {
            let ghost before = directories@;
            let mut path = self.paths[i].copy();
            let ghost whole = path@;
            proof {
                assert(path_views(self.paths@)[i as int] == entry_paths(all)[i as int]);
            }
            proof {
                assert(path_fault(all)(i as int) is None);
                lemma_entry_path_valid(all[i as int]);
            }
            if self.entries[i].kind == TransferEntryKind::File {
                path.components.pop();
                proof {
                    assert(path@ == whole.drop_last());
                }
            }
            directories.push(path);
            proof {
                assert(path_views(directories@) == path_views(before).push(path@));
                assert(wanted.take(i as int + 1) == wanted.take(i as int).push(wanted[i as int]));
            }
            i += 1;
        }
        proof {
            assert(wanted.take(n) == wanted);
        }
        directories
    }

    /// Where each entry goes, inside the transfer's directory.
    pub fn paths(&self) -> (paths: &Vec<RelativePath>)
        requires
            self.wf(),
        ensures
            path_views(paths@) == entry_paths(self@.entries),
    {
        &self.paths
    }

    /// The name of the directory that the transfer is put in.
    pub fn directory(&self) -> (directory: &str)
        ensures
            directory@ == self@.directory,
    {
        self.directory.as_str()
    }

    /// The manifest entry of a file.
    pub fn entry_of(&self, file_index: u32) -> (entry: Option<usize>)
        ensures
            entry is Some <==> file_index < self@.files.len(),
            entry matches Some(entry) ==> entry == self@.files[file_index as int].entry,
    {
        self.files.entry_of(file_index)
    }

    /// The bytes that the manifest announces.
    pub fn total_bytes(&self) -> (total: u64)
        requires
            self.wf(),
        ensures
            total == total_size(self@.entries),
            total <= MAX_TRANSFER_BYTES,
    {
        self.total
    }

    /// What the transfer is called in messages.
    pub fn summary(&self) -> (text: String)
        requires
            self.wf(),
        ensures
            text@ == manifest_summary(self@.entries),
    {
        proof {
            lemma_file_numbers(entry_views(self.entries@));
        }
        transfer_summary(self.files.len(), self.entries.len() - self.files.len(), self.total)
    }
}

/// Whether a leftover directory is old enough to be removed. One whose age, in
/// seconds, is not known stays.
pub fn is_stale(age: Option<u64>) -> (r: bool)
    ensures
        r == (age matches Some(seconds) && seconds >= CACHE_MAX_AGE),
{
    match age {
        Some(seconds) => seconds >= CACHE_MAX_AGE,
        None => false,
    }
}

} // verus!
