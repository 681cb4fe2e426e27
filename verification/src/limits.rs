//! Limits on what is accepted from input that nobody vouches for.

use vstd::prelude::*;

verus! {

/// The most VLRs that a file may declare.
pub const MAX_VLR_COUNT: u32 = 4_096;

/// The most EVLRs that a file may declare.
pub const MAX_EVLR_COUNT: u32 = 4_096;

/// The size of a LAS 1.4 header.
pub const LAS_HEADER_SIZE_14: u16 = 375;

/// The size of a VLR header.
pub const VLR_HEADER_BYTES: u64 = 54;

/// The size of an EVLR header.
pub const EVLR_HEADER_BYTES: u64 = 60;

/// The largest hierarchy page that is read.
pub const MAX_HIERARCHY_PAGE_BYTES: u64 = 67_108_864;

/// The most bytes of hierarchy pages that are read from one file.
pub const MAX_HIERARCHY_TOTAL_BYTES: u64 = 268_435_456;

/// The largest compressed point chunk that is read.
pub const MAX_POINT_CHUNK_BYTES: u64 = 536_870_912;

/// Chunk ranges that lie closer than this are fetched with one request.
pub const RANGE_COALESCE_GAP_BYTES: u64 = 65_536;

/// The most bytes that one coalesced request asks for.
pub const MAX_COALESCED_BYTES: u64 = 67_108_864;

/// The largest VLR section that is fetched when a remote file is opened.
pub const MAX_VLR_SECTION_BYTES: u64 = 67_108_864;

/// The most points that columns are given room for up front.
pub const MAX_INITIAL_COLUMN_RESERVE_POINTS: usize = 4_194_304;

/// The limits in the units in which they are meant.
pub proof fn law_limits()
    ensures
        MAX_VLR_COUNT == 4 * 1024,
        MAX_EVLR_COUNT == 4 * 1024,
        MAX_HIERARCHY_PAGE_BYTES == 64 * 1024 * 1024,
        MAX_HIERARCHY_TOTAL_BYTES == 256 * 1024 * 1024,
        MAX_POINT_CHUNK_BYTES == 512 * 1024 * 1024,
        RANGE_COALESCE_GAP_BYTES == 64 * 1024,
        MAX_COALESCED_BYTES == 64 * 1024 * 1024,
        MAX_VLR_SECTION_BYTES == 64 * 1024 * 1024,
        MAX_INITIAL_COLUMN_RESERVE_POINTS == 4 * 1024 * 1024,
{
}

} // verus!
