//! Fingerprints of clipboard contents, by which a device tells whether it has
//! seen them before.
//!
//! Texts and manifests are hashed with the standard library's `DefaultHasher`.
//! What is written to it is laid out as `Hash` lays out the same values on a
//! little-endian machine with 64-bit addresses.

use std::collections::hash_map::DefaultHasher;
use std::hash::Hasher;
use vstd::bytes::{
    spec_u128_to_le_bytes, spec_u32_to_le_bytes, spec_u64_to_le_bytes, u128_to_le_bytes,
    u32_to_le_bytes, u64_to_le_bytes,
};
use vstd::prelude::*;
use vstd::std_specs::hash::DefaultHasherAdditionalSpecFns;
use vstd::string::StringExecFns;
use vstd::utf8::encode_utf8;

use crate::digest::{sha256, sha256_finish, sha256_new, sha256_update};
use crate::endian::{be_bytes, be_value, leading_u64, to_be};
use crate::paths::{safe_char, safe_component};
use crate::text::{chars_of, hex, hex_text, part, string_of};
use crate::wire::{entry_views, ClipboardPayload, EntryView, PayloadView, TransferEntry, TransferEntryKind};

verus! {

/// The hash of a sequence of writes.
pub open spec fn hash_of(writes: Seq<Seq<u8>>) -> u64 {
    DefaultHasher::spec_finish(writes)
}

/// A text: its UTF-8 bytes and a byte that no text holds.
pub open spec fn text_writes(text: Seq<char>) -> Seq<Seq<u8>> {
    seq![encode_utf8(text), seq![0xffu8]]
}

/// A byte string: its length and its bytes.
pub open spec fn bytes_writes(bytes: Seq<u8>) -> Seq<Seq<u8>> {
    seq![spec_u64_to_le_bytes(bytes.len() as u64), bytes]
}

/// The number of an entry's kind.
pub open spec fn kind_number(kind: TransferEntryKind) -> u64 {
    match kind {
        TransferEntryKind::File => 0,
        TransferEntryKind::Directory => 1,
    }
}

/// File permissions: whether they are known, and the bits.
pub open spec fn mode_writes(mode: Option<u32>) -> Seq<Seq<u8>> {
    match mode {
        None => seq![spec_u64_to_le_bytes(0)],
        Some(bits) => seq![spec_u64_to_le_bytes(1), spec_u32_to_le_bytes(bits)],
    }
}

/// One manifest entry.
pub open spec fn entry_writes(entry: EntryView) -> Seq<Seq<u8>> {
    bytes_writes(entry.path).push(spec_u64_to_le_bytes(kind_number(entry.kind))).push(
        spec_u64_to_le_bytes(entry.size),
    ) + mode_writes(entry.mode)
}

/// The entries of a manifest, each with the time of its last change.
pub open spec fn manifest_writes(entries: Seq<EntryView>, modified: Seq<u128>) -> Seq<Seq<u8>>
    decreases entries.len(),
{
    if entries.len() == 0 {
        seq![]
    } else {
        manifest_writes(entries.drop_last(), modified) + entry_writes(entries.last()).push(
            spec_u128_to_le_bytes(modified[entries.len() - 1]),
        )
    }
}

/// The fingerprint of a manifest.
pub open spec fn manifest_hash(entries: Seq<EntryView>, modified: Seq<u128>) -> u64 {
    hash_of(manifest_writes(entries, modified))
}

/// The fingerprint of a text on the clipboard.
pub open spec fn text_hash(text: Seq<char>) -> u64 {
    hash_of(seq![seq![0u8]] + text_writes(text))
}

/// The fingerprint of what one message carries.
pub open spec fn payload_hash(payload: PayloadView) -> u64 {
    match payload {
        PayloadView::Text(text) => text_hash(text),
        PayloadView::Image { width, height, bytes } => hash_of(
            seq![seq![1u8], spec_u32_to_le_bytes(width), spec_u32_to_le_bytes(height)]
                + bytes_writes(bytes),
        ),
    }
}

pub(crate) fn write_text(hasher: &mut DefaultHasher, text: &str)
    ensures
        final(hasher)@ == old(hasher)@ + text_writes(text@),
{
    let ghost before = hasher@;
    hasher.write(text.as_bytes());
    let end: [u8; 1] = [0xff];
    hasher.write(end.as_slice());
    proof {
        assert(end@ == seq![0xffu8]);
        assert(hasher@ == before + text_writes(text@));
    }
}

fn write_byte(hasher: &mut DefaultHasher, byte: u8)
    ensures
        final(hasher)@ == old(hasher)@.push(seq![byte]),
{
    let bytes: [u8; 1] = [byte];
    hasher.write(bytes.as_slice());
    proof {
        assert(bytes@ == seq![byte]);
    }
}

pub(crate) fn write_u64(hasher: &mut DefaultHasher, n: u64)
    ensures
        final(hasher)@ == old(hasher)@.push(spec_u64_to_le_bytes(n)),
{
    let bytes = u64_to_le_bytes(n);
    hasher.write(bytes.as_slice());
}

pub(crate) fn write_u32(hasher: &mut DefaultHasher, n: u32)
    ensures
        final(hasher)@ == old(hasher)@.push(spec_u32_to_le_bytes(n)),
{
    let bytes = u32_to_le_bytes(n);
    hasher.write(bytes.as_slice());
}

pub(crate) fn write_bytes(hasher: &mut DefaultHasher, bytes: &[u8])
    ensures
        final(hasher)@ == old(hasher)@ + bytes_writes(bytes@),
{
    let ghost before = hasher@;
    write_u64(hasher, bytes.len() as u64);
    hasher.write(bytes);
    proof {
        assert(hasher@ == before + bytes_writes(bytes@));
    }
}

fn write_entry(hasher: &mut DefaultHasher, entry: &TransferEntry)
    ensures
        final(hasher)@ == old(hasher)@ + entry_writes(entry@),
{
    let ghost before = hasher@;
    write_bytes(hasher, entry.path.as_slice());
    let kind: u64 = match entry.kind {
        TransferEntryKind::File => 0,
        TransferEntryKind::Directory => 1,
    };
    write_u64(hasher, kind);
    write_u64(hasher, entry.size);
    match entry.mode {
        None => {
            write_u64(hasher, 0);
        },
        Some(bits) => {
            write_u64(hasher, 1);
            write_u32(hasher, bits);
        },
    }
    proof {
        assert(hasher@ == before + entry_writes(entry@));
    }
}

/// The fingerprint of a text on the clipboard.
pub fn text_fingerprint(text: &str) -> (r: u64)
    ensures
        r == text_hash(text@),
{
    let mut hasher = DefaultHasher::new();
    write_byte(&mut hasher, 0);
    write_text(&mut hasher, text);
    proof {
        assert(hasher@ == seq![seq![0u8]] + text_writes(text@));
    }
    hasher.finish()
}

/// The fingerprint of what one message carries.
pub fn fingerprint(payload: &ClipboardPayload) -> (r: u64)
    ensures
        r == payload_hash(payload@),
{
    match payload {
        ClipboardPayload::Text(text) => text_fingerprint(text.as_str()),
        ClipboardPayload::Image { width, height, bytes } => {
            let mut hasher = DefaultHasher::new();
            write_byte(&mut hasher, 1);
            write_u32(&mut hasher, *width);
            write_u32(&mut hasher, *height);
            write_bytes(&mut hasher, bytes.as_slice());
            proof {
                assert(hasher@ == seq![
                    seq![1u8],
                    spec_u32_to_le_bytes(*width),
                    spec_u32_to_le_bytes(*height),
                ] + bytes_writes(bytes@));
            }
            hasher.finish()
        },
    }
}

/// The fingerprint of a manifest whose entries were last changed at the given
/// times, in nanoseconds.
pub fn manifest_identity(entries: &Vec<TransferEntry>, modified: &Vec<u128>) -> (r: u64)
    requires
        entries@.len() == modified@.len(),
    ensures
        r == manifest_hash(entry_views(entries@), modified@),
{
    let ghost all = entry_views(entries@);
    let mut hasher = DefaultHasher::new();
    let mut i: usize = 0;
    proof {
        assert(manifest_writes(all.take(0), modified@) == Seq::<Seq<u8>>::empty());
    }
    while i < entries.len()
        invariant
            all == entry_views(entries@),
            i <= entries@.len(),
            entries@.len() == modified@.len(),
            hasher@ == manifest_writes(all.take(i as int), modified@),
        decreases entries@.len() - i,
    {
        let ghost before = hasher@;
        write_entry(&mut hasher, &entries[i]);
        let nanos = u128_to_le_bytes(modified[i]);
        hasher.write(nanos.as_slice());
        proof {
            let next = all.take(i as int + 1);
            assert(next.drop_last() == all.take(i as int));
            assert(hasher@ == manifest_writes(next, modified@));
        }
        i += 1;
    }
    proof {
        assert(all.take(entries@.len() as int) == all);
    }
    hasher.finish()
}

/// The fingerprint of an image: the start of the digest of its size and bytes.
pub open spec fn image_hash(width: u32, height: u32, bytes: Seq<u8>) -> nat {
    be_value(sha256(be_bytes(width) + be_bytes(height) + bytes).take(8))
}

/// The fingerprint of an image's pixels.
pub fn image_fingerprint(width: u32, height: u32, bytes: &[u8]) -> (r: u64)
    ensures
        r == image_hash(width, height, bytes@),
{
    let mut hasher = sha256_new();
    let w = to_be(width);
    let h = to_be(height);
    sha256_update(&mut hasher, w.as_slice());
    sha256_update(&mut hasher, h.as_slice());
    sha256_update(&mut hasher, bytes);
    proof {
        assert(Seq::<u8>::empty() + w@ == w@);
    }
    let digest = sha256_finish(&hasher);
    leading_u64(&digest)
}

/// The fingerprint of an image as it is sent.
pub fn image_payload_fingerprint(width: u32, height: u32, bytes: &[u8]) -> (r: u64)
    ensures
        r == image_hash(width, height, bytes@),
{
    image_fingerprint(width, height, bytes)
}

/// The name of a transfer's directory: up to 64 safe characters of its name,
/// and the hash of the whole name.
pub open spec fn transfer_directory(value: Seq<char>) -> Seq<char> {
    let safe = value.map_values(|c: char| safe_char(c));
    let prefix = if safe.len() <= 64 {
        safe
    } else {
        safe.take(64)
    };
    prefix.push('-') + hex(hash_of(text_writes(value)) as nat, 16)
}

/// The hash of a name alone.
pub(crate) fn name_hash(value: &str) -> (r: u64)
    ensures
        r == hash_of(text_writes(value@)),
{
    let mut hasher = DefaultHasher::new();
    write_text(&mut hasher, value);
    proof {
        assert(hasher@ == text_writes(value@));
    }
    hasher.finish()
}

/// Names the directory of a transfer.
pub fn transfer_component(value: &str) -> (r: String)
    ensures
        r@ == transfer_directory(value@),
{
    let hash: u64 = name_hash(value);
    let safe = safe_component(value);
    let chars = chars_of(safe.as_str());
    let end: usize = if chars.len() <= 64 {
        chars.len()
    } else {
        64
    };
    let prefix = part(chars.as_slice(), 0, end);
    proof {
        let mapped = value@.map_values(|c: char| safe_char(c));
        assert(prefix@ == (if mapped.len() <= 64 {
            mapped
        } else {
            mapped.take(64)
        }));
    }
    let mut r = string_of(prefix.as_slice());
    r.push('-');
    let digits = hex_text(hash);
    r.append(digits.as_str());
    r
}

/// A text that this device captured and the same text in a message from another
/// device have one fingerprint.
pub proof fn law_captured_text_matches_wire_text(text: Seq<char>)
    ensures
        payload_hash(PayloadView::Text(text)) == text_hash(text),
{
}

} // verus!
