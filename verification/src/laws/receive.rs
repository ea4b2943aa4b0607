//! What becomes of a file transfer.

use vstd::prelude::*;

use crate::digest::sha256;
use crate::manifest::{entry_path, file_numbers, root_paths};
use crate::progress::{chunk_fault, end_fault, with_chunk, with_end, FileView, TransferError};
use crate::receive::{manifest_summary, mode_changes, started};
use crate::text::decimal;
use crate::units::bytes_text;
use crate::wire::{total_size, EntryView, TransferEntryKind};

verus! {

/// How many entries have permissions.
pub open spec fn with_mode(entries: Seq<EntryView>) -> nat
    decreases entries.len(),
{
    if entries.len() == 0 {
        0
    } else if entries[0].mode is Some {
        1 + with_mode(entries.skip(1))
    } else {
        with_mode(entries.skip(1))
    }
}

proof fn lemma_with_mode_push(entries: Seq<EntryView>, entry: EntryView)
    ensures
        with_mode(entries.push(entry)) == with_mode(entries) + if entry.mode is Some {
            1nat
        } else {
            0nat
        },
    decreases entries.len(),
{
    if entries.len() > 0 {
        assert(entries.push(entry).skip(1) == entries.skip(1).push(entry));
        lemma_with_mode_push(entries.skip(1), entry);
    } else {
        assert(entries.push(entry).skip(1) == Seq::<EntryView>::empty());
        assert(with_mode(Seq::<EntryView>::empty()) == 0);
    }
}

/// Permissions are restored as they were: every entry of the manifest that has some, be it
/// a file or a directory, is among what is restored, with its path and exactly its
/// permissions; the last entry comes first, so that the place of an entry is given by how
/// many behind it have permissions; and there is nothing else.
pub proof fn law_permissions_are_restored(entries: Seq<EntryView>)
    ensures
        mode_changes(entries).len() == with_mode(entries),
        forall|i: int|
            0 <= i < entries.len() ==> ((#[trigger] entries[i]).mode matches Some(mode) ==> {
                let at = with_mode(entries.skip(i + 1)) as int;
                at < mode_changes(entries).len() && mode_changes(entries)[at] == (
                    entry_path(entries[i]),
                    mode,
                )
            }),
    decreases entries.len(),
{
    if entries.len() > 0 {
        let before = entries.drop_last();
        let last = entries.last();
        law_permissions_are_restored(before);
        assert(entries == before.push(last));
        lemma_with_mode_push(before, last);
        let changes = mode_changes(entries);
        let rest = mode_changes(before);
        assert forall|i: int| 0 <= i < entries.len() implies ((
        #[trigger] entries[i]).mode matches Some(mode) ==> {
            let at = with_mode(entries.skip(i + 1)) as int;
            at < changes.len() && changes[at] == (entry_path(entries[i]), mode)
        }) by {
            if entries[i].mode is Some {
                if i < before.len() {
                    assert(before[i] == entries[i]);
                    assert(entries.skip(i + 1) == before.skip(i + 1).push(last));
                    lemma_with_mode_push(before.skip(i + 1), last);
                    let old = with_mode(before.skip(i + 1)) as int;
                    assert(rest[old] == (entry_path(entries[i]), entries[i].mode->0));
                } else {
                    assert(entries.skip(i + 1) == Seq::<EntryView>::empty());
                    assert(with_mode(Seq::<EntryView>::empty()) == 0);
                }
            }
        }
    }
}

/// The files of a manifest are numbered in its order: the numbers are those of the entries
/// that are files, all of them, each after the one before.
pub proof fn law_files_are_numbered_in_order(entries: Seq<EntryView>)
    ensures
        forall|n: int| #[trigger]
            file_numbers(entries).contains(n) <==> 0 <= n < entries.len() && entries[n].kind
                == TransferEntryKind::File,
        forall|a: int, b: int|
            0 <= a < b < file_numbers(entries).len() ==> #[trigger] file_numbers(entries)[a]
                < #[trigger] file_numbers(entries)[b],
    decreases entries.len(),
{
    if entries.len() > 0 {
        let before = entries.drop_last();
        let last = entries.len() - 1;
        law_files_are_numbered_in_order(before);
        let old = file_numbers(before);
        let all = file_numbers(entries);
        assert forall|n: int| #[trigger] all.contains(n) <==> 0 <= n < entries.len()
            && entries[n].kind == TransferEntryKind::File by {
            if all.contains(n) {
                let k = choose|k: int| 0 <= k < all.len() && all[k] == n;
                if k < old.len() {
                    assert(old[k] == n);
                    assert(old.contains(n));
                    assert(before[n] == entries[n]);
                }
            }
            if 0 <= n < entries.len() && entries[n].kind == TransferEntryKind::File {
                if n < last {
                    assert(before[n] == entries[n]);
                    assert(old.contains(n));
                    let k = choose|k: int| 0 <= k < old.len() && old[k] == n;
                    assert(all[k] == n);
                } else {
                    assert(all[all.len() - 1] == n);
                }
            }
        }
        assert forall|a: int, b: int| 0 <= a < b < all.len() implies #[trigger] all[a]
            < #[trigger] all[b] by {
            assert(old[a] == all[a]);
            assert(old.contains(old[a]));
            if b < old.len() {
                assert(old[b] == all[b]);
            }
        }
    }
}

/// What goes on the clipboard of a transfer are its paths of one component, in the order
/// of the manifest.
pub proof fn law_roots_are_the_top_level(a: Seq<EntryView>, entry: EntryView)
    ensures
        root_paths(Seq::<EntryView>::empty()).len() == 0,
        entry_path(entry).len() == 1 ==> root_paths(a.push(entry)) == root_paths(a).push(
            entry_path(entry),
        ),
        entry_path(entry).len() != 1 ==> root_paths(a.push(entry)) == root_paths(a),
{
    assert(a.push(entry).drop_last() == a);
}

/// A manifest announces the sum of what its entries announce.
pub proof fn law_total_is_the_sum(a: Seq<EntryView>, entry: EntryView)
    ensures
        total_size(Seq::<EntryView>::empty()) == 0,
        total_size(a.push(entry)) == total_size(a) + entry.size,
{
    assert(a.push(entry).drop_last() == a);
}

/// A piece of a file is accepted if and only if it has between one byte and a mebibyte,
/// belongs to a file that is not over, begins where what was received ends, and is no
/// longer than what is missing; and what is wrong is told in this order.
pub proof fn law_pieces_that_are_accepted(
    files: Seq<FileView>,
    index: u32,
    offset: u64,
    bytes: Seq<u8>,
)
    requires
        forall|i: int| 0 <= i < files.len() ==> (#[trigger] files[i]).received.len() <= u64::MAX,
    ensures
        ({
            let file = files[index as int];
            let sized = 1 <= bytes.len() <= 1_048_576;
            let fault = chunk_fault(files, index, offset, bytes);
            &&& !sized ==> fault == Some(TransferError::ChunkSize)
            &&& sized && index >= files.len() ==> fault == Some(TransferError::ChunkIndex)
            &&& sized && index < files.len() && file.finished ==> fault == Some(
                TransferError::ChunkAfterEnd,
            )
            &&& sized && index < files.len() && !file.finished && offset != file.received.len()
                ==> (fault matches Some(TransferError::Offset { expected, actual }) && expected
                == file.received.len() && actual == offset)
            &&& sized && index < files.len() && !file.finished && offset == file.received.len()
                && file.received.len() + bytes.len() > file.expected ==> fault == Some(
                TransferError::TooLong,
            )
            &&& sized && index < files.len() && !file.finished && offset == file.received.len()
                && file.received.len() + bytes.len() <= file.expected ==> fault is None
        }),
{
    if index < files.len() {
        assert(files[index as int].received.len() <= u64::MAX);
    }
}

/// A piece that is accepted is put behind what was received of its file, and nothing else
/// changes; a file that ends is over, and nothing else changes.
pub proof fn law_pieces_are_put_behind(files: Seq<FileView>, index: u32, bytes: Seq<u8>, i: int)
    requires
        index < files.len(),
        0 <= i < files.len(),
    ensures
        with_chunk(files, index, bytes).len() == files.len(),
        i != index ==> with_chunk(files, index, bytes)[i] == files[i],
        with_chunk(files, index, bytes)[index as int].received == files[index as int].received
            + bytes,
        with_chunk(files, index, bytes)[index as int].entry == files[index as int].entry,
        with_chunk(files, index, bytes)[index as int].expected == files[index as int].expected,
        with_chunk(files, index, bytes)[index as int].finished == files[index as int].finished,
        with_end(files, index).len() == files.len(),
        i != index ==> with_end(files, index)[i] == files[i],
        with_end(files, index)[index as int].finished,
        with_end(files, index)[index as int].received == files[index as int].received,
        with_end(files, index)[index as int].entry == files[index as int].entry,
        with_end(files, index)[index as int].expected == files[index as int].expected,
{
}

/// A file may end if and only if it is one that is not over, all of it has come, and its
/// digest is the one given; and what is wrong is told in this order.
pub proof fn law_files_that_may_end(files: Seq<FileView>, index: u32, digest: Seq<u8>)
    requires
        forall|i: int|
            0 <= i < files.len() ==> (#[trigger] files[i]).received.len() <= u64::MAX
                && files[i].expected <= u64::MAX,
    ensures
        ({
            let file = files[index as int];
            let fault = end_fault(files, index, digest);
            &&& index >= files.len() ==> fault == Some(TransferError::EndIndex)
            &&& index < files.len() && file.finished ==> fault == Some(TransferError::EndTwice)
            &&& index < files.len() && !file.finished && file.received.len() != file.expected ==> (
            fault matches Some(TransferError::SizeMismatch { expected, actual }) && expected
                == file.expected && actual == file.received.len())
            &&& index < files.len() && !file.finished && file.received.len() == file.expected
                && sha256(file.received) != digest ==> fault == Some(
                TransferError::DigestMismatch,
            )
            &&& index < files.len() && !file.finished && file.received.len() == file.expected
                && sha256(file.received) == digest ==> fault is None
        }),
{
    if index < files.len() {
        assert(files[index as int].received.len() <= u64::MAX);
    }
}

/// Every file of a manifest is awaited from its beginning, with its size.
pub proof fn law_every_file_is_awaited(directory: Seq<char>, entries: Seq<EntryView>, i: int)
    requires
        0 <= i < file_numbers(entries).len(),
    ensures
        started(directory, entries).directory == directory,
        started(directory, entries).entries == entries,
        started(directory, entries).files.len() == file_numbers(entries).len(),
        started(directory, entries).files[i] == (FileView {
            entry: file_numbers(entries)[i],
            expected: entries[file_numbers(entries)[i]].size as nat,
            received: Seq::<u8>::empty(),
            finished: false,
        }),
{
}

/// A transfer is told by the number of its files, that of its directories, and its size.
pub proof fn law_transfer_is_told(entries: Seq<EntryView>)
    ensures
        file_numbers(entries).len() <= entries.len(),
        manifest_summary(entries) == decimal(file_numbers(entries).len()) + " 个文件、"@
            + decimal((entries.len() - file_numbers(entries).len()) as nat) + " 个目录（"@
            + bytes_text(total_size(entries)) + "）"@,
    decreases entries.len(),
{
    if entries.len() > 0 {
        law_transfer_is_told(entries.drop_last());
    }
}

} // verus!
