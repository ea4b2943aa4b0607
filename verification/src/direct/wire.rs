//! What devices send each other in the direct mode.

use std::collections::hash_map::DefaultHasher;
use std::hash::Hasher;
use vstd::bytes::{
    spec_u128_to_le_bytes, spec_u32_to_le_bytes, spec_u64_to_le_bytes, u128_to_le_bytes,
};
use vstd::prelude::*;
use vstd::std_specs::hash::DefaultHasherAdditionalSpecFns;
use vstd::string::StringExecFns;

use crate::fingerprint::{
    bytes_writes, hash_of, kind_number, mode_writes, name_hash, text_writes, write_bytes, write_text,
    write_u32, write_u64,
};
use crate::paths::{safe_char, safe_component};
use crate::text::{hex, hex_text};
use crate::wire::{ClipboardPayload, PayloadView, TransferEntryKind};

verus! {

/// One file or directory of a manifest.
#[derive(Debug, Clone, PartialEq, Eq)]
pub struct TransferEntry {
    pub path: String,
    pub kind: TransferEntryKind,
    pub size: u64,
    pub mode: Option<u32>,
}

/// A manifest entry as a value.
pub ghost struct EntryView {
    pub path: Seq<char>,
    pub kind: TransferEntryKind,
    pub size: u64,
    pub mode: Option<u32>,
}

impl View for TransferEntry {
    type V = EntryView;

    open spec fn view(&self) -> EntryView {
        EntryView { path: self.path@, kind: self.kind, size: self.size, mode: self.mode }
    }
}

/// The entries of a manifest as values.
pub open spec fn entry_views(entries: Seq<TransferEntry>) -> Seq<EntryView> {
    entries.map_values(|e: TransferEntry| e@)
}

/// One message between devices.
#[derive(Debug, Clone, PartialEq, Eq)]
pub enum WireMessage {
    Clipboard { id: String, payload: ClipboardPayload },
    TransferStart { id: String, fingerprint: u64, entries: Vec<TransferEntry> },
    TransferChunk { id: String, file_index: u32, offset: u64, bytes: Vec<u8> },
    TransferFileEnd { id: String, file_index: u32, sha256: [u8; 32] },
    TransferEnd { id: String },
    TransferAbort { id: String },
}

/// A message as a value.
pub ghost enum MessageView {
    Clipboard { id: Seq<char>, payload: PayloadView },
    TransferStart { id: Seq<char>, fingerprint: u64, entries: Seq<EntryView> },
    TransferChunk { id: Seq<char>, file_index: u32, offset: u64, bytes: Seq<u8> },
    TransferFileEnd { id: Seq<char>, file_index: u32, sha256: Seq<u8> },
    TransferEnd { id: Seq<char> },
    TransferAbort { id: Seq<char> },
}

impl View for WireMessage {
    type V = MessageView;

    open spec fn view(&self) -> MessageView {
        match self {
            WireMessage::Clipboard { id, payload } => MessageView::Clipboard {
                id: id@,
                payload: payload@,
            },
            WireMessage::TransferStart { id, fingerprint, entries } => MessageView::TransferStart {
                id: id@,
                fingerprint: *fingerprint,
                entries: entry_views(entries@),
            },
            WireMessage::TransferChunk { id, file_index, offset, bytes } => {
                MessageView::TransferChunk {
                    id: id@,
                    file_index: *file_index,
                    offset: *offset,
                    bytes: bytes@,
                }
            },
            WireMessage::TransferFileEnd { id, file_index, sha256 } => {
                MessageView::TransferFileEnd {
                    id: id@,
                    file_index: *file_index,
                    sha256: sha256@,
                }
            },
            WireMessage::TransferEnd { id } => MessageView::TransferEnd { id: id@ },
            WireMessage::TransferAbort { id } => MessageView::TransferAbort { id: id@ },
        }
    }
}

/// The bytes that the entries announce together.
pub open spec fn total_size(entries: Seq<EntryView>) -> nat
    decreases entries.len(),
{
    if entries.len() == 0 {
        0
    } else {
        total_size(entries.drop_last()) + entries.last().size as nat
    }
}

proof fn lemma_total_size_take(entries: Seq<EntryView>, n: int)
    requires
        0 <= n <= entries.len(),
    ensures
        total_size(entries.take(n)) <= total_size(entries),
    decreases entries.len(),
{
    if n < entries.len() {
        lemma_total_size_take(entries.drop_last(), n);
        assert(entries.drop_last().take(n) == entries.take(n));
    } else {
        assert(entries.take(n) == entries);
    }
}

/// Adds up what the entries announce; nothing where the sum does not fit.
pub fn checked_total(entries: &Vec<TransferEntry>) -> (total: Option<u64>)
    ensures
        total is Some <==> total_size(entry_views(entries@)) <= u64::MAX,
        total matches Some(total) ==> total == total_size(entry_views(entries@)),
{
    let ghost all = entry_views(entries@);
    let mut total: u64 = 0;
    let mut i: usize = 0;
    while i < entries.len()
        invariant
            all == entry_views(entries@),
            i <= entries@.len(),
            total == total_size(all.take(i as int)),
        decreases entries@.len() - i,
    {
        proof {
            assert(all.take(i as int + 1).drop_last() == all.take(i as int));
            lemma_total_size_take(all, i as int + 1);
        }
        match total.checked_add(entries[i].size) {
            Some(sum) => {
                total = sum;
            },
            None => {
                return None;
            },
        }
        i += 1;
    }
    proof {
        assert(all.take(entries@.len() as int) == all);
    }
    Some(total)
}

/// The entries that are files, by their number, in the order of the manifest.
pub open spec fn file_numbers(entries: Seq<EntryView>) -> Seq<int>
    decreases entries.len(),
{
    if entries.len() == 0 {
        seq![]
    } else {
        let before = file_numbers(entries.drop_last());
        match entries.last().kind {
            TransferEntryKind::File => before.push(entries.len() - 1),
            TransferEntryKind::Directory => before,
        }
    }
}

/// There are no more files than entries, and their numbers are those of entries.
pub proof fn lemma_file_numbers(entries: Seq<EntryView>)
    ensures
        file_numbers(entries).len() <= entries.len(),
        forall|i: int|
            0 <= i < file_numbers(entries).len() ==> 0 <= #[trigger] file_numbers(entries)[i]
                < entries.len(),
    decreases entries.len(),
{
    if entries.len() > 0 {
        let before = entries.drop_last();
        lemma_file_numbers(before);
        assert forall|i: int| 0 <= i < file_numbers(entries).len() implies 0
            <= #[trigger] file_numbers(entries)[i] < entries.len() by {
            if i < file_numbers(before).len() {
                assert(file_numbers(entries)[i] == file_numbers(before)[i]);
            }
        }
    }
}

/// What is written to the hasher for one entry.
pub open spec fn entry_writes(entry: EntryView) -> Seq<Seq<u8>> {
    text_writes(entry.path).push(spec_u64_to_le_bytes(kind_number(entry.kind))).push(
        spec_u64_to_le_bytes(entry.size),
    ) + mode_writes(entry.mode)
}

/// What is written for the entries of a manifest, each with the time of its last
/// change.
pub open spec fn manifest_writes(entries: Seq<EntryView>, modified: Seq<u128>) -> Seq<Seq<u8>>
    decreases entries.len(),
{
    if entries.len() == 0 {
        seq![]
    } else {
        manifest_writes(entries.drop_last(), modified) + entry_writes(entries.last()).push(
            spec_u128_to_le_bytes(modified[entries.len() - 1]),
        )
    }
}

/// The fingerprint of a manifest.
pub open spec fn manifest_hash(entries: Seq<EntryView>, modified: Seq<u128>) -> u64 {
    hash_of(manifest_writes(entries, modified))
}

/// The fingerprint of a clipboard: the number of its kind, then its parts.
pub open spec fn payload_hash(payload: PayloadView) -> u64 {
    match payload {
        PayloadView::Text(text) => hash_of(seq![spec_u64_to_le_bytes(0)] + text_writes(text)),
        PayloadView::Image { width, height, bytes } => hash_of(
            seq![
                spec_u64_to_le_bytes(1),
                spec_u32_to_le_bytes(width),
                spec_u32_to_le_bytes(height),
            ] + bytes_writes(bytes),
        ),
    }
}

fn write_entry(hasher: &mut DefaultHasher, entry: &TransferEntry)
    ensures
        final(hasher)@ == old(hasher)@ + entry_writes(entry@),
{
    let ghost before = hasher@;
    write_text(hasher, entry.path.as_str());
    let kind: u64 = match entry.kind {
        TransferEntryKind::File => 0,
        TransferEntryKind::Directory => 1,
    };
    write_u64(hasher, kind);
    write_u64(hasher, entry.size);
    match entry.mode {
        None => {
            write_u64(hasher, 0);
        },
        Some(bits) => {
            write_u64(hasher, 1);
            write_u32(hasher, bits);
        },
    }
    proof {
        assert(hasher@ == before + entry_writes(entry@));
    }
}

/// The fingerprint of a manifest whose entries were last changed at the given times,
/// in nanoseconds.
pub fn manifest_identity(entries: &Vec<TransferEntry>, modified: &Vec<u128>) -> (r: u64)
    requires
        entries@.len() == modified@.len(),
    ensures
        r == manifest_hash(entry_views(entries@), modified@),
{
    let ghost all = entry_views(entries@);
    let mut hasher = DefaultHasher::new();
    let mut i: usize = 0;
    proof {
        assert(manifest_writes(all.take(0), modified@) == Seq::<Seq<u8>>::empty());
    }
    while i < entries.len()
        invariant
            all == entry_views(entries@),
            i <= entries@.len(),
            entries@.len() == modified@.len(),
            hasher@ == manifest_writes(all.take(i as int), modified@),
        decreases entries@.len() - i,
    {
        write_entry(&mut hasher, &entries[i]);
        let nanos = u128_to_le_bytes(modified[i]);
        hasher.write(nanos.as_slice());
        proof {
            let next = all.take(i as int + 1);
            assert(next.drop_last() == all.take(i as int));
            assert(hasher@ == manifest_writes(next, modified@));
        }
        i += 1;
    }
    proof {
        assert(all.take(entries@.len() as int) == all);
    }
    hasher.finish()
}

/// The fingerprint of a clipboard.
pub fn fingerprint(payload: &ClipboardPayload) -> (r: u64)
    ensures
        r == payload_hash(payload@),
{
    let mut hasher = DefaultHasher::new();
    match payload {
        ClipboardPayload::Text(text) => {
            write_u64(&mut hasher, 0);
            write_text(&mut hasher, text.as_str());
            proof {
                assert(hasher@ == seq![spec_u64_to_le_bytes(0)] + text_writes(text@));
            }
        },
        ClipboardPayload::Image { width, height, bytes } => {
            write_u64(&mut hasher, 1);
            write_u32(&mut hasher, *width);
            write_u32(&mut hasher, *height);
            write_bytes(&mut hasher, bytes.as_slice());
            proof {
                assert(hasher@ == seq![
                    spec_u64_to_le_bytes(1),
                    spec_u32_to_le_bytes(*width),
                    spec_u32_to_le_bytes(*height),
                ] + bytes_writes(bytes@));
            }
        },
    }
    hasher.finish()
}

/// The name of a transfer's directory: the safe characters of its name, and the hash
/// of the name.
pub open spec fn transfer_directory(value: Seq<char>) -> Seq<char> {
    value.map_values(|c: char| safe_char(c)).push('-') + hex(
        hash_of(text_writes(value)) as nat,
        16,
    )
}

/// Names the directory of a transfer.
pub fn transfer_component(value: &str) -> (r: String)
    ensures
        r@ == transfer_directory(value@),
{
    let hash: u64 = name_hash(value);
    let mut r = safe_component(value);
    r.push('-');
    let digits = hex_text(hash);
    r.append(digits.as_str());
    r
}

} // verus!
