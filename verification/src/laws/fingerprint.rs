//! What fingerprints tell apart.

use std::collections::hash_map::DefaultHasher;
use vstd::bytes::{
    lemma_auto_spec_u128_to_from_le_bytes, lemma_auto_spec_u32_to_from_le_bytes,
    lemma_auto_spec_u64_to_from_le_bytes, spec_u128_from_le_bytes, spec_u128_to_le_bytes,
    spec_u32_from_le_bytes, spec_u32_to_le_bytes, spec_u64_from_le_bytes, spec_u64_to_le_bytes,
};
use vstd::prelude::*;
use vstd::std_specs::hash::DefaultHasherAdditionalSpecFns;
use vstd::utf8::{encode_utf8, encode_utf8_decode_utf8};

use crate::fingerprint::{
    bytes_writes, entry_writes, hash_of, manifest_hash, manifest_writes, payload_hash, text_hash,
    text_writes, transfer_directory,
};
use crate::text::hex;
use crate::wire::{EntryView, PayloadView};

verus! {

/// A number is read back from its bytes.
pub proof fn lemma_u64_injective(a: u64, b: u64)
    ensures
        spec_u64_to_le_bytes(a).len() == 8,
        spec_u64_to_le_bytes(a) == spec_u64_to_le_bytes(b) ==> a == b,
{
    lemma_auto_spec_u64_to_from_le_bytes();
    assert(spec_u64_from_le_bytes(spec_u64_to_le_bytes(a)) == a);
    assert(spec_u64_from_le_bytes(spec_u64_to_le_bytes(b)) == b);
}

/// A number is read back from its bytes.
pub proof fn lemma_u32_injective(a: u32, b: u32)
    ensures
        spec_u32_to_le_bytes(a).len() == 4,
        spec_u32_to_le_bytes(a) == spec_u32_to_le_bytes(b) ==> a == b,
{
    lemma_auto_spec_u32_to_from_le_bytes();
    assert(spec_u32_to_le_bytes(a).len() == 4);
    assert(spec_u32_from_le_bytes(spec_u32_to_le_bytes(a)) == a);
    assert(spec_u32_to_le_bytes(b).len() == 4);
    assert(spec_u32_from_le_bytes(spec_u32_to_le_bytes(b)) == b);
}

/// A number is read back from its bytes.
pub proof fn lemma_u128_injective(a: u128, b: u128)
    ensures
        spec_u128_to_le_bytes(a) == spec_u128_to_le_bytes(b) ==> a == b,
{
    lemma_auto_spec_u128_to_from_le_bytes();
    assert(spec_u128_to_le_bytes(a).len() == 16);
    assert(spec_u128_from_le_bytes(spec_u128_to_le_bytes(a)) == a);
    assert(spec_u128_to_le_bytes(b).len() == 16);
    assert(spec_u128_from_le_bytes(spec_u128_to_le_bytes(b)) == b);
}

/// What is written to the hasher for one entry: the length of its path, its path, a number
/// for its kind, its size, its permissions behind a number that says whether it has any,
/// and its time.
pub open spec fn written(entry: EntryView, modified: u128) -> Seq<Seq<u8>> {
    let head = seq![
        spec_u64_to_le_bytes(entry.path.len() as u64),
        entry.path,
        spec_u64_to_le_bytes(
            if entry.kind == crate::wire::TransferEntryKind::File {
                0
            } else {
                1
            },
        ),
        spec_u64_to_le_bytes(entry.size),
    ];
    match entry.mode {
        None => head + seq![spec_u64_to_le_bytes(0), spec_u128_to_le_bytes(modified)],
        Some(mode) => head + seq![
            spec_u64_to_le_bytes(1),
            spec_u32_to_le_bytes(mode),
            spec_u128_to_le_bytes(modified),
        ],
    }
}

/// The fingerprint of files is the hash of everything written for every entry, in the order
/// of the manifest.
pub proof fn law_files_are_hashed_whole(
    entries: Seq<EntryView>,
    times: Seq<u128>,
    entry: EntryView,
)
    requires
        times.len() == entries.len() + 1,
    ensures
        manifest_hash(entries, times) == DefaultHasher::spec_finish(
            manifest_writes(entries, times),
        ),
        manifest_writes(Seq::<EntryView>::empty(), times).len() == 0,
        manifest_writes(entries.push(entry), times) == manifest_writes(entries, times) + written(
            entry,
            times.last(),
        ),
{
    assert(entries.push(entry).drop_last() == entries);
    lemma_written(entry, times.last());
}

proof fn lemma_written(entry: EntryView, modified: u128)
    ensures
        entry_writes(entry).push(spec_u128_to_le_bytes(modified)) == written(entry, modified),
{
    let own = entry_writes(entry).push(spec_u128_to_le_bytes(modified));
    assert(own == written(entry, modified));
}

/// Nothing is written alike for two entries, or two times, that differ.
pub proof fn law_entries_are_told_apart(
    a: EntryView,
    time_a: u128,
    b: EntryView,
    time_b: u128,
    before_a: Seq<Seq<u8>>,
    before_b: Seq<Seq<u8>>,
)
    requires
        before_a + written(a, time_a) == before_b + written(b, time_b),
    ensures
        a == b,
        time_a == time_b,
        before_a == before_b,
{
    let x = before_a + written(a, time_a);
    let y = before_b + written(b, time_b);
    let n = x.len() as int;
    lemma_u64_injective(0, 1);
    lemma_u64_injective(1, 0);
    lemma_u32_injective(a.mode.unwrap_or(0), b.mode.unwrap_or(0));
    lemma_u32_injective(b.mode.unwrap_or(0), a.mode.unwrap_or(0));
    lemma_u128_injective(time_a, time_b);
    lemma_u64_injective(a.size, b.size);
    assert(x[n - 1] == spec_u128_to_le_bytes(time_a));
    assert(y[n - 1] == spec_u128_to_le_bytes(time_b));
    if a.mode is None {
        assert(x[n - 2].len() == 8);
    } else {
        assert(x[n - 2] == spec_u32_to_le_bytes(a.mode->0));
        assert(x[n - 2].len() == 4);
    }
    if b.mode is None {
        assert(y[n - 2].len() == 8);
    } else {
        assert(y[n - 2] == spec_u32_to_le_bytes(b.mode->0));
        assert(y[n - 2].len() == 4);
    }
    assert(a.mode is None <==> b.mode is None);
    let m = written(a, time_a).len() as int;
    assert(m == written(b, time_b).len());
    assert(before_a.len() == before_b.len());
    let k = before_a.len() as int;
    assert(x[k + 1] == a.path && y[k + 1] == b.path);
    assert(x[k + 2] == written(a, time_a)[2] && y[k + 2] == written(b, time_b)[2]);
    assert(x[k + 3] == spec_u64_to_le_bytes(a.size));
    assert(y[k + 3] == spec_u64_to_le_bytes(b.size));
    assert(x.take(k) == before_a);
    assert(y.take(k) == before_b);
}

/// Two captures of files are hashed alike only if every path, kind, size, set of
/// permissions and time is the same, in the same order.
pub proof fn law_files_are_told_apart(
    a: Seq<EntryView>,
    times_a: Seq<u128>,
    b: Seq<EntryView>,
    times_b: Seq<u128>,
)
    requires
        times_a.len() == a.len(),
        times_b.len() == b.len(),
        manifest_writes(a, times_a) == manifest_writes(b, times_b),
    ensures
        a == b,
        times_a == times_b,
    decreases a.len(),
{
    if a.len() == 0 && b.len() == 0 {
        assert(a == b);
        assert(times_a == times_b);
    } else if a.len() == 0 {
        lemma_written(b.last(), times_b.last());
        assert(manifest_writes(b, times_b).len() > 0);
    } else if b.len() == 0 {
        lemma_written(a.last(), times_a.last());
        assert(manifest_writes(a, times_a).len() > 0);
    } else {
        lemma_written(a.last(), times_a.last());
        lemma_written(b.last(), times_b.last());
        lemma_times(a.drop_last(), times_a, times_a.drop_last());
        lemma_times(b.drop_last(), times_b, times_b.drop_last());
        law_entries_are_told_apart(
            a.last(),
            times_a.last(),
            b.last(),
            times_b.last(),
            manifest_writes(a.drop_last(), times_a),
            manifest_writes(b.drop_last(), times_b),
        );
        law_files_are_told_apart(
            a.drop_last(),
            times_a.drop_last(),
            b.drop_last(),
            times_b.drop_last(),
        );
        assert(a == a.drop_last().push(a.last()));
        assert(b == b.drop_last().push(b.last()));
        assert(times_a == times_a.drop_last().push(times_a.last()));
        assert(times_b == times_b.drop_last().push(times_b.last()));
    }
}

proof fn lemma_times(entries: Seq<EntryView>, times: Seq<u128>, fewer: Seq<u128>)
    requires
        entries.len() <= fewer.len() <= times.len(),
        forall|i: int| 0 <= i < fewer.len() ==> fewer[i] == #[trigger] times[i],
    ensures
        manifest_writes(entries, times) == manifest_writes(entries, fewer),
    decreases entries.len(),
{
    if entries.len() > 0 {
        lemma_times(entries.drop_last(), times, fewer);
        assert(fewer[entries.len() - 1] == times[entries.len() - 1]);
    }
}

/// A text is hashed whole, and told from every other text and from every image.
pub proof fn law_texts_are_told_apart(text: Seq<char>, other: Seq<char>)
    ensures
        text_hash(text) == DefaultHasher::spec_finish(
            seq![seq![0u8], encode_utf8(text), seq![0xffu8]],
        ),
        payload_hash(PayloadView::Text(text)) == text_hash(text),
        encode_utf8(text) == encode_utf8(other) ==> text == other,
{
    assert(seq![seq![0u8]] + text_writes(text) == seq![
        seq![0u8],
        encode_utf8(text),
        seq![0xffu8],
    ]);
    encode_utf8_decode_utf8(text);
    encode_utf8_decode_utf8(other);
}

/// An image that comes in one message is hashed whole, and told from every other image.
pub proof fn law_images_are_hashed_whole(width: u32, height: u32, bytes: Seq<u8>)
    ensures
        payload_hash(PayloadView::Image { width, height, bytes }) == DefaultHasher::spec_finish(
            seq![
                seq![1u8],
                spec_u32_to_le_bytes(width),
                spec_u32_to_le_bytes(height),
                spec_u64_to_le_bytes(bytes.len() as u64),
                bytes,
            ],
        ),
{
    assert(seq![seq![1u8], spec_u32_to_le_bytes(width), spec_u32_to_le_bytes(height)]
        + bytes_writes(bytes) == seq![
        seq![1u8],
        spec_u32_to_le_bytes(width),
        spec_u32_to_le_bytes(height),
        spec_u64_to_le_bytes(bytes.len() as u64),
        bytes,
    ]);
}

/// The directory of a transfer is named by the first sixty-four characters of its name,
/// made safe, and by the hash of the whole name, so that long names are told apart.
pub proof fn law_directory_is_named(value: Seq<char>, kept: nat)
    requires
        kept == if value.len() <= 64 {
            value.len()
        } else {
            64
        },
    ensures
        transfer_directory(value).len() == kept + 17,
        forall|i: int|
            0 <= i < kept ==> #[trigger] transfer_directory(value)[i] == crate::paths::safe_char(
                value[i],
            ),
        transfer_directory(value)[kept as int] == '-',
        transfer_directory(value).skip(kept as int + 1) == hex(
            DefaultHasher::spec_finish(seq![encode_utf8(value), seq![0xffu8]]) as nat,
            16,
        ),
{
    let number = hash_of(text_writes(value)) as nat;
    crate::laws::text::law_hex_has_its_width(number, 16);
    let name = transfer_directory(value);
    assert(name.skip(kept as int + 1) == hex(number, 16));
}

} // verus!
