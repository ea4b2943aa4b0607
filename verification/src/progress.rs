//! What has come in of the files of a transfer.

use sha2::Sha256;
use vstd::prelude::*;

use crate::digest::{absorbed, sha256, sha256_finish, sha256_new, sha256_update};
use crate::text::same_bytes;
use crate::wire::CHUNK_SIZE;

verus! {

/// Why a message about a transfer is refused.
#[derive(Debug, Clone, Copy, PartialEq, Eq, Structural)]
pub enum TransferError {
    ChunkSize,
    ChunkIndex,
    ChunkAfterEnd,
    Offset { expected: u64, actual: u64 },
    TooLong,
    EndIndex,
    EndTwice,
    SizeMismatch { expected: u64, actual: u64 },
    DigestMismatch,
    Unfinished,
}

/// What has come in of one file.
pub ghost struct FileView {
    /// The number of the file's manifest entry.
    pub entry: int,
    pub expected: nat,
    pub received: Seq<u8>,
    pub finished: bool,
}

impl FileView {
    /// A file of which nothing has come in.
    pub open spec fn awaited(entry: int, expected: nat) -> FileView {
        FileView { entry, expected, received: seq![], finished: false }
    }

    /// The file is no longer than announced, and complete if it is finished.
    pub open spec fn valid(self) -> bool {
        &&& self.received.len() <= self.expected
        &&& self.finished ==> self.received.len() == self.expected
    }
}

/// Why a chunk is refused, if it is.
pub open spec fn chunk_fault(
    files: Seq<FileView>,
    index: u32,
    offset: u64,
    bytes: Seq<u8>,
) -> Option<TransferError> {
    let file = files[index as int];
    if bytes.len() == 0 || bytes.len() > CHUNK_SIZE {
        Some(TransferError::ChunkSize)
    } else if index >= files.len() {
        Some(TransferError::ChunkIndex)
    } else if file.finished {
        Some(TransferError::ChunkAfterEnd)
    } else if offset != file.received.len() {
        Some(TransferError::Offset { expected: file.received.len() as u64, actual: offset })
    } else if file.received.len() + bytes.len() > file.expected {
        Some(TransferError::TooLong)
    } else {
        None
    }
}

/// The files with a chunk put at the end of one.
pub open spec fn with_chunk(files: Seq<FileView>, index: u32, bytes: Seq<u8>) -> Seq<FileView> {
    let file = files[index as int];
    files.update(index as int, FileView { received: file.received + bytes, ..file })
}

/// Why the end of a file is refused, if it is.
pub open spec fn end_fault(files: Seq<FileView>, index: u32, digest: Seq<u8>) -> Option<
    TransferError,
> {
    let file = files[index as int];
    if index >= files.len() {
        Some(TransferError::EndIndex)
    } else if file.finished {
        Some(TransferError::EndTwice)
    } else if file.received.len() != file.expected {
        Some(
            TransferError::SizeMismatch {
                expected: file.expected as u64,
                actual: file.received.len() as u64,
            },
        )
    } else if sha256(file.received) != digest {
        Some(TransferError::DigestMismatch)
    } else {
        None
    }
}

/// The files with one finished.
pub open spec fn with_end(files: Seq<FileView>, index: u32) -> Seq<FileView> {
    let file = files[index as int];
    files.update(index as int, FileView { finished: true, ..file })
}

/// Whether every file is finished.
pub open spec fn all_finished(files: Seq<FileView>) -> bool {
    forall|i: int| 0 <= i < files.len() ==> (#[trigger] files[i]).finished
}

/// One file that is coming in.
struct IncomingFile {
    entry: usize,
    expected_size: u64,
    received_size: u64,
    hasher: Sha256,
    finished: bool,
}

impl View for IncomingFile {
    type V = FileView;

    closed spec fn view(&self) -> FileView {
        FileView {
            entry: self.entry as int,
            expected: self.expected_size as nat,
            received: absorbed(self.hasher),
            finished: self.finished,
        }
    }
}

/// The files of a transfer that are coming in.
pub struct FileProgress {
    files: Vec<IncomingFile>,
}

impl View for FileProgress {
    type V = Seq<FileView>;

    closed spec fn view(&self) -> Seq<FileView> {
        self.files@.map_values(|f: IncomingFile| f@)
    }
}

impl FileProgress {
    /// Every file is valid, and its size is known.
    pub closed spec fn wf(self) -> bool {
        forall|i: int|
            0 <= i < self.files@.len() ==> {
                let file = #[trigger] self.files@[i];
                file@.valid() && absorbed(file.hasher).len() == file.received_size
            }
    }

    /// Every file is valid.
    pub proof fn lemma_valid(self)
        requires
            self.wf(),
        ensures
            forall|i: int|
                0 <= i < self@.len() ==> (#[trigger] self@[i]).valid() && self@[i].expected
                    <= u64::MAX,
    {
        assert forall|i: int| 0 <= i < self@.len() implies (#[trigger] self@[i]).valid()
            && self@[i].expected <= u64::MAX by {
            assert(self@[i] == self.files@[i]@);
        }
    }

    /// No file at all.
    pub fn new() -> (progress: FileProgress)
        ensures
            progress.wf(),
            progress@ == Seq::<FileView>::empty(),
    {
        let progress = FileProgress { files: Vec::new() };
        proof {
            assert(progress@ == Seq::<FileView>::empty());
        }
        progress
    }

    /// One more file, of which nothing has come in.
    pub fn push(&mut self, entry: usize, expected_size: u64)
        requires
            old(self).wf(),
        ensures
            final(self).wf(),
            final(self)@ == old(self)@.push(FileView::awaited(entry as int, expected_size as nat)),
    {
        let ghost before = *self;
        let file = IncomingFile {
            entry,
            expected_size,
            received_size: 0,
            hasher: sha256_new(),
            finished: false,
        };
        self.files.push(file);
        proof {
            assert(file@ == FileView::awaited(entry as int, expected_size as nat));
            assert(self@ == before@.push(file@));
            assert forall|i: int| 0 <= i < self.files@.len() implies {
                let f = #[trigger] self.files@[i];
                f@.valid() && absorbed(f.hasher).len() == f.received_size
            } by {
                if i < before.files@.len() {
                    assert(self.files@[i] == before.files@[i]);
                }
            }
        }
    }

    /// How many files there are.
    pub fn len(&self) -> (n: usize)
        ensures
            n == self@.len(),
    {
        self.files.len()
    }

    /// Takes one chunk of a file. The answer says whether the file has to be made
    /// first; a refused chunk changes nothing.
    pub fn accept_chunk(&mut self, file_index: u32, offset: u64, bytes: &[u8]) -> (r: Result<
        bool,
        TransferError,
    >)
        requires
            old(self).wf(),
        ensures
            final(self).wf(),
            r is Ok <==> chunk_fault(old(self)@, file_index, offset, bytes@) is None,
            r matches Ok(create) ==> final(self)@ == with_chunk(old(self)@, file_index, bytes@)
                && create == (offset == 0),
            r matches Err(error) ==> *final(self) == *old(self) && chunk_fault(
                old(self)@,
                file_index,
                offset,
                bytes@,
            ) == Some(error),
    {
        if bytes.len() == 0 || bytes.len() > CHUNK_SIZE {
            return Err(TransferError::ChunkSize);
        }
        let index = file_index as usize;
        if index >= self.files.len() {
            return Err(TransferError::ChunkIndex);
        }
        proof {
            assert(self@[index as int] == self.files@[index as int]@);
        }
        if self.files[index].finished {
            return Err(TransferError::ChunkAfterEnd);
        }
        let received: u64 = self.files[index].received_size;
        if offset != received {
            return Err(TransferError::Offset { expected: received, actual: offset });
        }
        let length: u64 = bytes.len() as u64;
        if length > self.files[index].expected_size - received {
            return Err(TransferError::TooLong);
        }
        let ghost before = *self;
        let ghost file = self.files@[index as int];
        self.files[index].received_size = received + length;
        sha256_update(&mut self.files[index].hasher, bytes);
        proof {
            let after = self.files@[index as int];
            assert(after@ == FileView { received: file@.received + bytes@, ..file@ });
            assert(self@ == with_chunk(before@, file_index, bytes@));
            assert forall|k: int| 0 <= k < self.files@.len() implies {
                let f = #[trigger] self.files@[k];
                f@.valid() && absorbed(f.hasher).len() == f.received_size
            } by {
                let b = before.files@[k];
            }
        }
        Ok(offset == 0)
    }

    /// Ends one file: it is complete, and its digest is the one announced. The
    /// answer says whether the file has to be made first, being empty; a refused
    /// end changes nothing.
    pub fn finish_file(&mut self, file_index: u32, expected_sha256: [u8; 32]) -> (r: Result<
        bool,
        TransferError,
    >)
        requires
            old(self).wf(),
        ensures
            final(self).wf(),
            r is Ok <==> end_fault(old(self)@, file_index, expected_sha256@) is None,
            r matches Ok(create) ==> final(self)@ == with_end(old(self)@, file_index) && create == (
            old(self)@[file_index as int].received.len() == 0),
            r matches Err(error) ==> *final(self) == *old(self) && end_fault(
                old(self)@,
                file_index,
                expected_sha256@,
            ) == Some(error),
    {
        let index = file_index as usize;
        if index >= self.files.len() {
            return Err(TransferError::EndIndex);
        }
        proof {
            assert(self@[index as int] == self.files@[index as int]@);
        }
        if self.files[index].finished {
            return Err(TransferError::EndTwice);
        }
        let expected: u64 = self.files[index].expected_size;
        let actual: u64 = self.files[index].received_size;
        if actual != expected {
            return Err(TransferError::SizeMismatch { expected, actual });
        }
        let digest = sha256_finish(&self.files[index].hasher);
        if !same_bytes(digest.as_slice(), expected_sha256.as_slice()) {
            return Err(TransferError::DigestMismatch);
        }
        let ghost before = *self;
        let ghost file = self.files@[index as int];
        self.files[index].finished = true;
        proof {
            let after = self.files@[index as int];
            assert(after@ == FileView { finished: true, ..file@ });
            assert(self@ == with_end(before@, file_index));
            assert forall|k: int| 0 <= k < self.files@.len() implies {
                let f = #[trigger] self.files@[k];
                f@.valid() && absorbed(f.hasher).len() == f.received_size
            } by {
                let b = before.files@[k];
            }
        }
        Ok(actual == 0)
    }

    /// Whether every file is finished.
    pub fn is_complete(&self) -> (r: bool)
        ensures
            r == all_finished(self@),
    {
        let mut i: usize = 0;
        while i < self.files.len()
            invariant
                i <= self.files@.len(),
                forall|k: int| 0 <= k < i ==> (#[trigger] self@[k]).finished,
            decreases self.files@.len() - i,
        {
            proof {
                assert(self@[i as int] == self.files@[i as int]@);
            }
            if !self.files[i].finished {
                return false;
            }
            i += 1;
        }
        proof {
            assert(self@.len() == self.files@.len());
        }
        true
    }

    /// The manifest entry of a file.
    pub fn entry_of(&self, file_index: u32) -> (entry: Option<usize>)
        ensures
            entry is Some <==> file_index < self@.len(),
            entry matches Some(entry) ==> entry == self@[file_index as int].entry,
    {
        let index = file_index as usize;
        if index < self.files.len() {
            proof {
                assert(self@[index as int] == self.files@[index as int]@);
            }
            Some(self.files[index].entry)
        } else {
            None
        }
    }
}

} // verus!
