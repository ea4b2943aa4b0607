//! What is taken from the clipboard.

use vstd::prelude::*;
use vstd::utf8::encode_utf8;

use crate::capture::CapturedFiles;
use crate::clipboard::{
    follows, remembered, text_name, CaptureCache, CapturedPayload, Next, Reading,
};
use crate::image::{captures, image_summary, CapturedImage, ImageError};
use crate::manifest::path_views;
use crate::receive::manifest_summary;
use crate::text::decimal;
use crate::units::bytes_text;

verus! {

/// Captured files are trusted if and only if they are those that are copied now, and the
/// time to look again has not come.
pub proof fn law_captured_files_are_trusted(
    cache: CaptureCache,
    paths: Seq<Seq<Seq<u8>>>,
    now: u64,
)
    ensures
        cache.trusts(paths, now) <==> (remembered(cache.files) matches Some(known) && known.0
            == paths && (cache.next_file_validation matches Some(deadline) && now < deadline)),
{
}

/// Copied files come first: with some, they are taken as they are known or captured anew;
/// without, the image is read. Nothing changes yet.
pub proof fn law_files_come_first(
    before: CaptureCache,
    paths: Option<Vec<crate::paths::RelativePath>>,
    now: u64,
    next: Next,
    after: CaptureCache,
)
    requires
        follows(before, Reading::Paths(paths), now, next, after),
    ensures
        after == before,
        paths is None ==> next == (Next::ReadImage { announce: false }),
        paths matches Some(paths) ==> paths@.len() == 0 ==> next == (Next::ReadImage {
            announce: false,
        }),
        paths matches Some(paths) ==> paths@.len() > 0 ==> {
            ||| next == Next::CaptureFiles(paths)
            ||| next matches Next::Captured(CapturedPayload::Files(files)) && remembered(
                before.files,
            ) == Some((path_views(paths@), *files)) && (
            before.next_file_validation matches Some(deadline) && now < deadline)
        },
        paths matches Some(paths) ==> paths@.len() > 0 && (
        before.next_file_validation matches Some(deadline) && now < deadline) && (remembered(
            before.files,
        ) matches Some(known) && known.0 == path_views(paths@)) ==> next is Captured,
{
}

/// Files that were captured are what is on the clipboard, are trusted for five seconds, in
/// nanoseconds, and then looked at again.
pub proof fn law_captured_files_are_remembered(
    before: CaptureCache,
    paths: Vec<crate::paths::RelativePath>,
    files: std::sync::Arc<CapturedFiles>,
    now: u64,
    next: Next,
    after: CaptureCache,
    later: u64,
)
    requires
        now + 5_000_000_000 <= u64::MAX,
        follows(before, Reading::Files { paths, files }, now, next, after),
    ensures
        next == Next::Captured(CapturedPayload::Files(files)),
        after.trusts(path_views(paths@), later) <==> later < now + 5_000_000_000,
        after.last_file_error is None,
        after.image == before.image,
{
}

/// Where files cannot be captured the image is read; the same failure is announced once.
pub proof fn law_failure_is_announced_once(
    before: CaptureCache,
    message: String,
    now: u64,
    next: Next,
    after: CaptureCache,
)
    requires
        follows(before, Reading::NoFiles { message }, now, next, after),
    ensures
        next matches Next::ReadImage { announce } && (announce <==> !(
        before.last_file_error matches Some(last) && last@ == message@)),
        after.last_file_error matches Some(last) && last@ == message@,
        after.files == before.files,
        after.next_file_validation == before.next_file_validation,
        after.image == before.image,
{
}

/// Without files nothing is known of any; an image is captured, and without one the text is
/// read.
pub proof fn law_images_come_second(
    before: CaptureCache,
    image: Option<crate::image::RawImage>,
    now: u64,
    next: Next,
    after: CaptureCache,
)
    requires
        follows(before, Reading::Image(image), now, next, after),
    ensures
        after.files is None,
        after.next_file_validation is None,
        after.last_file_error == before.last_file_error,
        image is None ==> next == Next::ReadText && after.image is None,
        image is Some ==> {
            ||| next matches Next::Captured(CapturedPayload::Image(captured)) && captures(
                image->0,
                before.image,
                Ok::<Option<CapturedImage>, ImageError>(Some(captured)),
                after.image,
            )
            ||| next matches Next::Refused(error) && captures(
                image->0,
                before.image,
                Err::<Option<CapturedImage>, ImageError>(error),
                after.image,
            )
        },
{
}

/// Text comes last: any but the empty one is what is on the clipboard, as it is.
pub proof fn law_text_comes_last(
    before: CaptureCache,
    text: Option<String>,
    now: u64,
    next: Next,
    after: CaptureCache,
)
    requires
        follows(before, Reading::Text(text), now, next, after),
    ensures
        after.files == before.files,
        after.next_file_validation == before.next_file_validation,
        after.image == before.image,
        text matches Some(text) ==> text@.len() > 0 ==> next == Next::Captured(
            CapturedPayload::Text(text),
        ) && after.last_file_error is None,
        text is None || text->0@.len() == 0 ==> next == Next::Empty && after.last_file_error
            == before.last_file_error,
{
}

/// What was captured goes by the fingerprint that it came with, and a text by that of all of
/// it.
pub proof fn law_captured_fingerprints(
    text: String,
    image: CapturedImage,
    files: std::sync::Arc<CapturedFiles>,
)
    ensures
        CapturedPayload::Text(text).hash() == crate::fingerprint::text_hash(text@),
        CapturedPayload::Image(image).hash() == image.fingerprint,
        CapturedPayload::Files(files).hash() == files.identity,
{
}

/// A clipboard is told by what it is and how large it is.
pub proof fn law_clipboards_are_told(
    text: String,
    image: CapturedImage,
    files: std::sync::Arc<CapturedFiles>,
    size: nat,
)
    ensures
        text_name(text@) == "文本（"@ + bytes_text(encode_utf8(text@).len()) + "）"@,
        image_summary(image.width, image.height, size) == "图片 "@ + decimal(image.width as nat)
            + "x"@ + decimal(image.height as nat) + "（"@ + bytes_text(size) + "）"@,
        CapturedPayload::Text(text).summary() == text_name(text@),
        CapturedPayload::Image(image).summary() == image_summary(
            image.width,
            image.height,
            image.bytes@.len(),
        ),
        CapturedPayload::Files(files).summary() == manifest_summary(files.manifest()),
{
}

/// What is remembered of files are the copied paths and what was captured of them.
pub proof fn law_files_are_remembered(
    paths: Vec<crate::paths::RelativePath>,
    files: std::sync::Arc<CapturedFiles>,
)
    ensures
        remembered(Some((paths, files))) == Some((path_views(paths@), *files)),
        remembered(None) is None,
{
}

} // verus!
