//! What fingerprints tell apart between devices that are connected directly.

use std::collections::hash_map::DefaultHasher;
use vstd::bytes::{spec_u128_to_le_bytes, spec_u32_to_le_bytes, spec_u64_to_le_bytes};
use vstd::prelude::*;
use vstd::std_specs::hash::DefaultHasherAdditionalSpecFns;
use vstd::utf8::{encode_utf8, encode_utf8_decode_utf8};

use crate::direct::capture::CapturedFiles;
use crate::direct::clipboard::{captures, CapturedPayload, ClipboardError};
use crate::direct::wire::{
    entry_writes, manifest_hash, manifest_writes, payload_hash, transfer_directory, EntryView,
};
use crate::fingerprint::{bytes_writes, hash_of, text_writes};
use crate::image::RawImage;
use crate::laws::fingerprint::{lemma_u128_injective, lemma_u32_injective, lemma_u64_injective};
use crate::text::hex;
use crate::wire::{PayloadView, TransferEntryKind};

verus! {

/// What is written to the hasher for one entry: its path and a byte that no text holds, a
/// number for its kind, its size, its permissions behind a number that says whether it has
/// any, and its time.
pub open spec fn written(entry: EntryView, modified: u128) -> Seq<Seq<u8>> {
    let head = seq![
        encode_utf8(entry.path),
        seq![0xffu8],
        spec_u64_to_le_bytes(
            if entry.kind == TransferEntryKind::File {
                0
            } else {
                1
            },
        ),
        spec_u64_to_le_bytes(entry.size),
    ];
    match entry.mode {
        None => head + seq![spec_u64_to_le_bytes(0), spec_u128_to_le_bytes(modified)],
        Some(mode) => head + seq![
            spec_u64_to_le_bytes(1),
            spec_u32_to_le_bytes(mode),
            spec_u128_to_le_bytes(modified),
        ],
    }
}

/// The fingerprint of files is the hash of everything written for every entry, in the order
/// of the manifest.
pub proof fn law_files_are_hashed_whole(
    entries: Seq<EntryView>,
    times: Seq<u128>,
    entry: EntryView,
)
    requires
        times.len() == entries.len() + 1,
    ensures
        manifest_hash(entries, times) == DefaultHasher::spec_finish(
            manifest_writes(entries, times),
        ),
        manifest_writes(Seq::<EntryView>::empty(), times).len() == 0,
        manifest_writes(entries.push(entry), times) == manifest_writes(entries, times) + written(
            entry,
            times.last(),
        ),
{
    assert(entries.push(entry).drop_last() == entries);
    lemma_written(entry, times.last());
}

proof fn lemma_written(entry: EntryView, modified: u128)
    ensures
        entry_writes(entry).push(spec_u128_to_le_bytes(modified)) == written(entry, modified),
{
    let own = entry_writes(entry).push(spec_u128_to_le_bytes(modified));
    assert(own == written(entry, modified));
}

/// Nothing is written alike for two entries, or two times, that differ.
pub proof fn law_entries_are_told_apart(
    a: EntryView,
    time_a: u128,
    b: EntryView,
    time_b: u128,
    before_a: Seq<Seq<u8>>,
    before_b: Seq<Seq<u8>>,
)
    requires
        before_a + written(a, time_a) == before_b + written(b, time_b),
    ensures
        a == b,
        time_a == time_b,
        before_a == before_b,
{
    let x = before_a + written(a, time_a);
    let y = before_b + written(b, time_b);
    let n = x.len() as int;
    lemma_u64_injective(0, 1);
    lemma_u64_injective(1, 0);
    lemma_u32_injective(a.mode.unwrap_or(0), b.mode.unwrap_or(0));
    lemma_u32_injective(b.mode.unwrap_or(0), a.mode.unwrap_or(0));
    lemma_u128_injective(time_a, time_b);
    lemma_u64_injective(a.size, b.size);
    encode_utf8_decode_utf8(a.path);
    encode_utf8_decode_utf8(b.path);
    assert(x[n - 1] == spec_u128_to_le_bytes(time_a));
    assert(y[n - 1] == spec_u128_to_le_bytes(time_b));
    if a.mode is None {
        assert(x[n - 2].len() == 8);
    } else {
        assert(x[n - 2] == spec_u32_to_le_bytes(a.mode->0));
        assert(x[n - 2].len() == 4);
    }
    if b.mode is None {
        assert(y[n - 2].len() == 8);
    } else {
        assert(y[n - 2] == spec_u32_to_le_bytes(b.mode->0));
        assert(y[n - 2].len() == 4);
    }
    assert(a.mode is None <==> b.mode is None);
    assert(before_a.len() == before_b.len());
    let k = before_a.len() as int;
    assert(x[k] == encode_utf8(a.path) && y[k] == encode_utf8(b.path));
    assert(x[k + 2] == written(a, time_a)[2] && y[k + 2] == written(b, time_b)[2]);
    assert(x[k + 3] == spec_u64_to_le_bytes(a.size));
    assert(y[k + 3] == spec_u64_to_le_bytes(b.size));
    assert(x.take(k) == before_a);
    assert(y.take(k) == before_b);
}

/// Two captures of files are hashed alike only if every path, kind, size, set of
/// permissions and time is the same, in the same order.
pub proof fn law_files_are_told_apart(
    a: Seq<EntryView>,
    times_a: Seq<u128>,
    b: Seq<EntryView>,
    times_b: Seq<u128>,
)
    requires
        times_a.len() == a.len(),
        times_b.len() == b.len(),
        manifest_writes(a, times_a) == manifest_writes(b, times_b),
    ensures
        a == b,
        times_a == times_b,
    decreases a.len(),
{
    if a.len() == 0 && b.len() == 0 {
        assert(a == b);
        assert(times_a == times_b);
    } else if a.len() == 0 {
        lemma_written(b.last(), times_b.last());
        assert(manifest_writes(b, times_b).len() > 0);
    } else if b.len() == 0 {
        lemma_written(a.last(), times_a.last());
        assert(manifest_writes(a, times_a).len() > 0);
    } else {
        lemma_written(a.last(), times_a.last());
        lemma_written(b.last(), times_b.last());
        lemma_times(a.drop_last(), times_a, times_a.drop_last());
        lemma_times(b.drop_last(), times_b, times_b.drop_last());
        law_entries_are_told_apart(
            a.last(),
            times_a.last(),
            b.last(),
            times_b.last(),
            manifest_writes(a.drop_last(), times_a),
            manifest_writes(b.drop_last(), times_b),
        );
        law_files_are_told_apart(
            a.drop_last(),
            times_a.drop_last(),
            b.drop_last(),
            times_b.drop_last(),
        );
        assert(a == a.drop_last().push(a.last()));
        assert(b == b.drop_last().push(b.last()));
        assert(times_a == times_a.drop_last().push(times_a.last()));
        assert(times_b == times_b.drop_last().push(times_b.last()));
    }
}

proof fn lemma_times(entries: Seq<EntryView>, times: Seq<u128>, fewer: Seq<u128>)
    requires
        entries.len() <= fewer.len() <= times.len(),
        forall|i: int| 0 <= i < fewer.len() ==> fewer[i] == #[trigger] times[i],
    ensures
        manifest_writes(entries, times) == manifest_writes(entries, fewer),
    decreases entries.len(),
{
    if entries.len() > 0 {
        lemma_times(entries.drop_last(), times, fewer);
        assert(fewer[entries.len() - 1] == times[entries.len() - 1]);
    }
}

/// Texts and images are hashed whole, and told from one another.
pub proof fn law_clipboards_are_hashed_whole(
    text: Seq<char>,
    width: u32,
    height: u32,
    bytes: Seq<u8>,
)
    ensures
        payload_hash(PayloadView::Text(text)) == DefaultHasher::spec_finish(
            seq![spec_u64_to_le_bytes(0), encode_utf8(text), seq![0xffu8]],
        ),
        payload_hash(PayloadView::Image { width, height, bytes }) == DefaultHasher::spec_finish(
            seq![
                spec_u64_to_le_bytes(1),
                spec_u32_to_le_bytes(width),
                spec_u32_to_le_bytes(height),
                spec_u64_to_le_bytes(bytes.len() as u64),
                bytes,
            ],
        ),
{
    assert(seq![spec_u64_to_le_bytes(0)] + text_writes(text) == seq![
        spec_u64_to_le_bytes(0),
        encode_utf8(text),
        seq![0xffu8],
    ]);
    assert(seq![spec_u64_to_le_bytes(1), spec_u32_to_le_bytes(width), spec_u32_to_le_bytes(height)]
        + bytes_writes(bytes) == seq![
        spec_u64_to_le_bytes(1),
        spec_u32_to_le_bytes(width),
        spec_u32_to_le_bytes(height),
        spec_u64_to_le_bytes(bytes.len() as u64),
        bytes,
    ]);
}

/// The directory of a transfer is named by its name, made safe, and by the hash of it.
pub proof fn law_directory_is_named(value: Seq<char>)
    ensures
        transfer_directory(value).len() == value.len() + 17,
        forall|i: int|
            0 <= i < value.len() ==> #[trigger] transfer_directory(value)[i]
                == crate::paths::safe_char(value[i]),
        transfer_directory(value)[value.len() as int] == '-',
        transfer_directory(value).skip(value.len() as int + 1) == hex(
            DefaultHasher::spec_finish(seq![encode_utf8(value), seq![0xffu8]]) as nat,
            16,
        ),
{
    let number = hash_of(text_writes(value)) as nat;
    crate::laws::text::law_hex_has_its_width(number, 16);
    let name = transfer_directory(value);
    assert(name.skip(value.len() as int + 1) == hex(number, 16));
}

/// Files are taken before an image, an image before text, and text that is not empty before
/// nothing; and each is taken as it is.
pub proof fn law_clipboard_is_taken(
    files: Option<CapturedFiles>,
    image: Option<RawImage>,
    text: Option<String>,
    r: Result<CapturedPayload, ClipboardError>,
)
    requires
        captures(files, image, text, r),
    ensures
        files is Some ==> (r matches Ok(CapturedPayload::Files(found)) && *found == files->0),
        files is None && image is Some ==> {
            let raw = image->0;
            &&& raw.width > u32::MAX ==> r == Err::<CapturedPayload, ClipboardError>(
                ClipboardError::Width,
            )
            &&& raw.width <= u32::MAX && raw.height > u32::MAX ==> r == Err::<
                CapturedPayload,
                ClipboardError,
            >(ClipboardError::Height)
            &&& raw.width <= u32::MAX && raw.height <= u32::MAX ==> (r matches Ok(
                CapturedPayload::Image(payload),
            ) && (payload@ matches PayloadView::Image { width, height, bytes } && width
                == raw.width && height == raw.height && bytes == raw.bytes@))
        },
        files is None && image is None && text is Some && text->0@.len() > 0 ==> (r matches Ok(
            CapturedPayload::Text(payload),
        ) && payload@ == PayloadView::Text(text->0@)),
        files is None && image is None && (text is None || text->0@.len() == 0) ==> r == Err::<
            CapturedPayload,
            ClipboardError,
        >(ClipboardError::Empty),
{
}

/// What was captured goes by the hash of all of it.
pub proof fn law_captured_fingerprints(
    payload: crate::wire::ClipboardPayload,
    files: std::sync::Arc<CapturedFiles>,
)
    ensures
        CapturedPayload::Text(payload).hash() == payload_hash(payload@),
        CapturedPayload::Image(payload).hash() == payload_hash(payload@),
        CapturedPayload::Files(files).hash() == files.identity,
{
}

} // verus!
