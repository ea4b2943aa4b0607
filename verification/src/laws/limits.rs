//! The limits that are kept.

use vstd::prelude::*;

use crate::image::{MAX_IMAGE_BYTES, MAX_IMAGE_TRANSFER_BYTES};
use crate::seen::MAX_SEEN;
use crate::wire::{
    CACHE_MAX_AGE, CHUNK_SIZE, FILE_CACHE_VALIDATION_INTERVAL, FRAME_LIMIT, MAX_ACTIVE_IMAGES,
    MAX_ACTIVE_IMAGE_BYTES, MAX_ACTIVE_TRANSFERS, MAX_ACTIVE_TRANSFER_BYTES, MAX_MANIFEST_ENTRIES,
    MAX_MESSAGE_ID_LEN, MAX_PEERS, MAX_TRANSFER_BYTES, PROTOCOL_VERSION, SESSION_IDLE_TIMEOUT,
};

verus! {

/// What is sent in one piece fits a frame with room to spare, what comes in at one time is
/// bounded, and no bound keeps out one transfer or one image that is allowed by itself.
pub proof fn law_limits_agree()
    ensures
        CHUNK_SIZE == 1024 * 1024,
        FRAME_LIMIT == 4 * CHUNK_SIZE,
        MAX_TRANSFER_BYTES == 32 * 1024 * 1024 * 1024,
        MAX_ACTIVE_TRANSFER_BYTES == 2 * MAX_TRANSFER_BYTES,
        MAX_ACTIVE_TRANSFERS == 16,
        MAX_IMAGE_BYTES == 64 * 1024 * 1024,
        MAX_IMAGE_TRANSFER_BYTES == MAX_IMAGE_BYTES,
        MAX_ACTIVE_IMAGES == 4,
        MAX_ACTIVE_IMAGE_BYTES == MAX_ACTIVE_IMAGES * MAX_IMAGE_TRANSFER_BYTES,
        MAX_MANIFEST_ENTRIES == 100_000,
        MAX_MESSAGE_ID_LEN == 256,
        MAX_SEEN == 256,
        MAX_PEERS == 32,
        SESSION_IDLE_TIMEOUT == 5 * 60 * 1_000_000_000,
        FILE_CACHE_VALIDATION_INTERVAL == 5 * 1_000_000_000,
        CACHE_MAX_AGE == 7 * 24 * 60 * 60,
        PROTOCOL_VERSION == 1,
{
}

} // verus!
