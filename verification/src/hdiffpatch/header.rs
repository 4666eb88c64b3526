//! The header of a patch and the constants of the decoder.

use vstd::prelude::*;
use super::compression_mode::CompressionMode;

verus! {

#[derive(Clone, Copy, Debug)]
pub struct HeaderInfo {
    pub comp_mode: CompressionMode,
    pub is_single_compressed_diff: bool,
    pub step_mem_size: i64,
    pub old_data_size: i64,
    pub new_data_size: i64,
    pub compressed_count: i64,
    pub single_chunk_info: DiffSingleChunkInfo,
    pub chunk_info: DiffChunkInfo,
}

#[derive(Clone, Copy, Debug)]
pub struct DiffSingleChunkInfo {
    pub uncompressed_size: i64,
    pub compressed_size: i64,
    pub diff_data_pos: i64,
}

#[derive(Clone, Copy, Debug)]
pub struct DiffChunkInfo {
    pub types_end_pos: i64,
    pub cover_count: i64,
    pub cover_buf_size: i64,
    pub compress_cover_buf_size: i64,
    pub rle_ctrl_buf_size: i64,
    pub compress_rle_ctrl_buf_size: i64,
    pub rle_code_buf_size: i64,
    pub compress_rle_code_buf_size: i64,
    pub new_data_diff_size: i64,
    pub compress_new_data_diff_size: i64,
    pub head_end_pos: i64,
    pub cover_end_pos: i64,
}

/// What is left of the current run: of a run of one added value, and of a run
/// of values taken from the code stream.
#[derive(Clone, Copy, Debug)]
pub struct RleRefClip {
    pub mem_copy_length: i64,
    pub mem_set_length: i64,
    pub mem_set_value: u8,
}

/// A stretch of the new data that is made from a stretch of the old data.
#[derive(Clone, Copy, Debug)]
pub struct CoverHeader {
    pub old_pos: i64,
    pub new_pos: i64,
    pub cover_length: i64,
    pub next_cover_index: i64,
}

impl CoverHeader {
    pub fn new(old_pos: i64, new_pos: i64, cover_length: i64, next_cover_index: i64) -> (r: Self)
        ensures
            r == (CoverHeader { old_pos, new_pos, cover_length, next_cover_index }),
    {
        CoverHeader { old_pos, new_pos, cover_length, next_cover_index }
    }
}

/// The chunk info of an empty patch.
pub open spec fn empty_chunk_info() -> DiffChunkInfo {
    DiffChunkInfo {
        types_end_pos: 0,
        cover_count: 0,
        cover_buf_size: 0,
        compress_cover_buf_size: 0,
        rle_ctrl_buf_size: 0,
        compress_rle_ctrl_buf_size: 0,
        rle_code_buf_size: 0,
        compress_rle_code_buf_size: 0,
        new_data_diff_size: 0,
        compress_new_data_diff_size: 0,
        head_end_pos: 0,
        cover_end_pos: 0,
    }
}

impl Default for DiffChunkInfo {
    fn default() -> (r: DiffChunkInfo)
        ensures
            r == empty_chunk_info(),
    {
        DiffChunkInfo {
            types_end_pos: 0,
            cover_count: 0,
            cover_buf_size: 0,
            compress_cover_buf_size: 0,
            rle_ctrl_buf_size: 0,
            compress_rle_ctrl_buf_size: 0,
            rle_code_buf_size: 0,
            compress_rle_code_buf_size: 0,
            new_data_diff_size: 0,
            compress_new_data_diff_size: 0,
            head_end_pos: 0,
            cover_end_pos: 0,
        }
    }
}

/// The single-chunk info of an empty patch.
pub open spec fn empty_single_chunk_info() -> DiffSingleChunkInfo {
    DiffSingleChunkInfo { uncompressed_size: 0, compressed_size: 0, diff_data_pos: 0 }
}

impl Default for DiffSingleChunkInfo {
    fn default() -> (r: DiffSingleChunkInfo)
        ensures
            r == empty_single_chunk_info(),
    {
        DiffSingleChunkInfo { uncompressed_size: 0, compressed_size: 0, diff_data_pos: 0 }
    }
}

/// The header of an empty patch.
pub open spec fn empty_header_info() -> HeaderInfo {
    HeaderInfo {
        comp_mode: CompressionMode::Nocomp,
        is_single_compressed_diff: false,
        step_mem_size: 0,
        old_data_size: 0,
        new_data_size: 0,
        compressed_count: 0,
        single_chunk_info: empty_single_chunk_info(),
        chunk_info: empty_chunk_info(),
    }
}

impl Default for HeaderInfo {
    fn default() -> (r: HeaderInfo)
        ensures
            r == empty_header_info(),
    {
        HeaderInfo {
            comp_mode: CompressionMode::Nocomp,
            is_single_compressed_diff: false,
            step_mem_size: 0,
            old_data_size: 0,
            new_data_size: 0,
            compressed_count: 0,
            single_chunk_info: DiffSingleChunkInfo::default(),
            chunk_info: DiffChunkInfo::default(),
        }
    }
}

/// No run is under way.
pub open spec fn empty_clip() -> RleRefClip {
    RleRefClip { mem_copy_length: 0, mem_set_length: 0, mem_set_value: 0 }
}

impl Default for RleRefClip {
    fn default() -> (r: RleRefClip)
        ensures
            r == empty_clip(),
    {
        RleRefClip { mem_copy_length: 0, mem_set_length: 0, mem_set_value: 0 }
    }
}

/// The number of tag bits of a cover's first byte.
pub const K_SIGN_TAG_BIT: u8 = 1;

/// The number of tag bits of a run's first byte.
pub const K_BYTE_RLE_TYPE: u8 = 2;

/// Cover data below this size is read into memory at once.
pub const MAX_MEM_BUFFER_LEN: i64 = 0x10_0000;

/// Output is handed on when more than this many bytes are pending.
pub const MAX_MEM_BUFFER_LIMIT: usize = 0x20_0000;

/// The size of the decode buffer.
pub const MAX_ARRAY_POOL_LEN: usize = 0x10_0000;

/// Where the second half of the decode buffer starts.
pub const MAX_ARRAY_POOL_SECOND_OFFSET: usize = 0x8_0000;

} // verus!
