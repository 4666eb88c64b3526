//! Patches in four sections: covers, run control, run values and literal data.

use vstd::prelude::*;
use super::compression::clip_stream;
use super::compression::get_clip_stream;
use super::compression::section_bytes;
use super::compression_mode::CompressionMode;
use super::error::HDiffError;
use super::error::LayoutPoint;
use super::header::HeaderInfo;
use super::parser::ByteStream;
use super::parser::StreamView;
use super::patch_core::cover_stream_output;
use super::patch_core::write_cover_stream_to_output;
use super::patch_core::PatchClips;
use super::patch_core::PatchOutput;
use super::patch_core::PatchState;

verus! {

/// A signed size as an unsigned one, with the same 64 bits.
pub open spec fn unsigned_bits(x: i64) -> u64 {
    if x >= 0 {
        x as u64
    } else {
        (x + 0x1_0000_0000_0000_0000) as u64
    }
}

/// A signed size as an unsigned one, with the same 64 bits.
pub fn to_unsigned_bits(x: i64) -> (r: u64)
    ensures
        r == unsigned_bits(x),
{
    if x >= 0 {
        x as u64
    } else {
        u64::MAX - ((-(x + 1)) as u64)
    }
}

/// The number of compressed bytes that are read of a section: the window byte
/// in front of zlib data is not part of them.
pub open spec fn readable_size(mode: CompressionMode, compressed: u64) -> u64 {
    if mode == CompressionMode::Zlib && compressed > 0 {
        (compressed - 1) as u64
    } else {
        compressed
    }
}

/// Where a section starts when the one before it ends at `offset`.
pub open spec fn section_start(mode: CompressionMode, offset: int, comp_size: i64) -> int {
    if comp_size > 0 {
        offset + mode.spec_padding()
    } else {
        offset
    }
}

/// The section behind `offset`, and where it ends.
pub open spec fn open_section(
    file: Seq<u8>,
    mode: CompressionMode,
    offset: int,
    size: i64,
    comp_size: i64,
    point: LayoutPoint,
) -> Result<(StreamView, int), HDiffError> {
    let start = section_start(mode, offset, comp_size);
    let comp = readable_size(mode, unsigned_bits(comp_size));
    if start > u64::MAX {
        Err(HDiffError::OffsetOverflow(point))
    } else {
        match clip_stream(file, mode, start as u64, unsigned_bits(size), comp, false) {
            Err(e) => Err(e),
            Ok(s) => Ok((s, start + section_bytes(unsigned_bits(size), comp))),
        }
    }
}

/// The section behind `offset`, and where it ends, if that can be told in 64
/// bits.
pub open spec fn open_bounded_section(
    file: Seq<u8>,
    mode: CompressionMode,
    offset: int,
    size: i64,
    comp_size: i64,
    start_point: LayoutPoint,
    end_point: LayoutPoint,
) -> Result<(StreamView, int), HDiffError> {
    match open_section(file, mode, offset, size, comp_size, start_point) {
        Err(e) => Err(e),
        Ok((s, end)) => if end > u64::MAX {
            Err(HDiffError::OffsetOverflow(end_point))
        } else {
            Ok((s, end))
        },
    }
}

/// The four sections of a patch, in the order covers, run control, run values,
/// literal data.
pub open spec fn open_sections(file: Seq<u8>, h: HeaderInfo) -> Result<
    (StreamView, StreamView, StreamView, StreamView),
    HDiffError,
> {
    let ci = h.chunk_info;
    match open_bounded_section(
        file,
        h.comp_mode,
        unsigned_bits(ci.head_end_pos) as int,
        ci.cover_buf_size,
        ci.compress_cover_buf_size,
        LayoutPoint::CoverStart,
        LayoutPoint::AfterCover,
    ) {
        Err(e) => Err(e),
        Ok((cover, end0)) => match open_bounded_section(
            file,
            h.comp_mode,
            end0,
            ci.rle_ctrl_buf_size,
            ci.compress_rle_ctrl_buf_size,
            LayoutPoint::RleCtrlStart,
            LayoutPoint::AfterRleCtrl,
        ) {
            Err(e) => Err(e),
            Ok((ctrl, end1)) => match open_bounded_section(
                file,
                h.comp_mode,
                end1,
                ci.rle_code_buf_size,
                ci.compress_rle_code_buf_size,
                LayoutPoint::RleCodeStart,
                LayoutPoint::AfterRleCode,
            ) {
                Err(e) => Err(e),
                Ok((code, end2)) => match open_section(
                    file,
                    h.comp_mode,
                    end2,
                    ci.new_data_diff_size,
                    ci.compress_new_data_diff_size,
                    LayoutPoint::NewDataDiffStart,
                ) {
                    Err(e) => Err(e),
                    Ok((diff, _)) => Ok((cover, ctrl, code, diff)),
                },
            },
        },
    }
}

/// What a sectioned patch makes of the old data.
pub open spec fn sectioned_output(old: Seq<u8>, file: Seq<u8>, h: HeaderInfo) -> Result<
    PatchState,
    HDiffError,
> {
    if h.new_data_size > usize::MAX {
        Err(HDiffError::OutputTooLarge)
    } else {
        match open_sections(file, h) {
            Err(e) => Err(e),
            Ok((cover, ctrl, code, diff)) => cover_stream_output(cover, ctrl, code, diff, old, h),
        }
    }
}

fn readable(mode: CompressionMode, compressed: u64) -> (r: u64)
    ensures
        r == readable_size(mode, compressed),
{
    if mode == CompressionMode::Zlib && compressed > 0 {
        compressed - 1
    } else {
        compressed
    }
}

/// Opens the section behind `offset`. The second component is where it ends,
/// or nothing when that takes more than 64 bits.
fn read_section(
    file: &Vec<u8>,
    mode: CompressionMode,
    offset: u64,
    size: i64,
    comp_size: i64,
    point: LayoutPoint,
) -> (r: Result<(ByteStream, Option<u64>), HDiffError>)
    ensures
        match open_section(file@, mode, offset as int, size, comp_size, point) {
            Ok((s, end)) => {
                &&& r matches Ok((t, e))
                &&& t.wf()
                &&& t@ == s
                &&& e == if end > u64::MAX {
                    None
                } else {
                    Some(end as u64)
                }
            },
            Err(e) => r matches Err(f) && f == e,
        },
{
    let padding: u64 = if comp_size > 0 {
        mode.padding()
    } else {
        0
    };
    let start: u64 = match offset.checked_add(padding) {
        Some(v) => v,
        None => return Err(HDiffError::OffsetOverflow(point)),
    };
    let comp: u64 = readable(mode, to_unsigned_bits(comp_size));
    let (s, n) = get_clip_stream(file, mode, start, to_unsigned_bits(size), comp, false)?;
    Ok((s, start.checked_add(n)))
}

fn read_bounded_section(
    file: &Vec<u8>,
    mode: CompressionMode,
    offset: u64,
    size: i64,
    comp_size: i64,
    start_point: LayoutPoint,
    end_point: LayoutPoint,
) -> (r: Result<(ByteStream, u64), HDiffError>)
    ensures
        match open_bounded_section(
            file@,
            mode,
            offset as int,
            size,
            comp_size,
            start_point,
            end_point,
        ) {
            Ok((s, end)) => r matches Ok((t, e)) && t.wf() && t@ == s && e == end,
            Err(e) => r matches Err(f) && f == e,
        },
{
    match read_section(file, mode, offset, size, comp_size, start_point) {
        Ok((s, Some(end))) => Ok((s, end)),
        Ok((_, None)) => Err(HDiffError::OffsetOverflow(end_point)),
        Err(e) => Err(e),
    }
}

/// Applies sectioned patches.
pub struct PatchSingle {
    pub header_info: HeaderInfo,
}

impl PatchSingle {
    pub fn new(header_info: HeaderInfo) -> (r: Self)
        ensures
            r.header_info == header_info,
    {
        PatchSingle { header_info }
    }

    /// Opens the four sections of the patch.
    pub fn open(&self, file: &Vec<u8>) -> (r: Result<PatchClips, HDiffError>)
        ensures
            match open_sections(file@, self.header_info) {
                Ok((cover, ctrl, code, diff)) => {
                    &&& r matches Ok(c)
                    &&& c.wf()
                    &&& c.cover@ == cover
                    &&& c.rle_ctrl@ == ctrl
                    &&& c.rle_code@ == code
                    &&& c.new_data_diff@ == diff
                },
                Err(e) => r matches Err(f) && f == e,
            },
    {
        let h = &self.header_info;
        let ci = &h.chunk_info;
        let (cover, end0) = read_bounded_section(
            file,
            h.comp_mode,
            to_unsigned_bits(ci.head_end_pos),
            ci.cover_buf_size,
            ci.compress_cover_buf_size,
            LayoutPoint::CoverStart,
            LayoutPoint::AfterCover,
        )?;
        let (ctrl, end1) = read_bounded_section(
            file,
            h.comp_mode,
            end0,
            ci.rle_ctrl_buf_size,
            ci.compress_rle_ctrl_buf_size,
            LayoutPoint::RleCtrlStart,
            LayoutPoint::AfterRleCtrl,
        )?;
        let (code, end2) = read_bounded_section(
            file,
            h.comp_mode,
            end1,
            ci.rle_code_buf_size,
            ci.compress_rle_code_buf_size,
            LayoutPoint::RleCodeStart,
            LayoutPoint::AfterRleCode,
        )?;
        let (diff, _) = read_section(
            file,
            h.comp_mode,
            end2,
            ci.new_data_diff_size,
            ci.compress_new_data_diff_size,
            LayoutPoint::NewDataDiffStart,
        )?;
        Ok(
            PatchClips {
                cover,
                rle_ctrl: ctrl,
                rle_code: code,
                new_data_diff: diff,
            },
        )
    }

    /// Applies the patch in `patch_file`, if there is one, to the old data.
    pub fn patch(&self, old_data: &Vec<u8>, patch_file: Option<&Vec<u8>>) -> (r: Result<
        PatchOutput,
        HDiffError,
    >)
        ensures
            match patch_file {
                None => r matches Err(e) && e == HDiffError::NotFound,
                Some(file) => match sectioned_output(old_data@, file@, self.header_info) {
                    Ok(s) => r matches Ok(o) && o.data@ == s.out && o.progress@ == s.progress,
                    Err(e) => r matches Err(f) && f == e,
                },
            },
            r matches Ok(o) ==> o.data@.len() == if self.header_info.new_data_size > 0 {
                self.header_info.new_data_size as int
            } else {
                0
            },
    {
        let file = match patch_file {
            Some(f) => f,
            None => return Err(HDiffError::NotFound),
        };
        let size: i64 = self.header_info.new_data_size;
        if size > 0 && size as u64 > usize::MAX as u64 {
            return Err(HDiffError::OutputTooLarge);
        }
        let clips = self.open(file)?;
        write_cover_stream_to_output(clips, old_data, &self.header_info)
    }
}

} // verus!
