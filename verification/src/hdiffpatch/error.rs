//! Why a patch is refused.

use vstd::prelude::*;
use crate::text::push_signed_decimal;
use crate::text::signed_decimal;

verus! {

/// A point in the layout of a sectioned patch at which an offset is computed.
#[derive(Clone, Copy, Debug, PartialEq, Eq, Structural)]
pub enum LayoutPoint {
    CoverStart,
    AfterCover,
    RleCtrlStart,
    AfterRleCtrl,
    RleCodeStart,
    AfterRleCode,
    NewDataDiffStart,
}

/// Every way in which reading or applying a patch can fail.
#[derive(Clone, Copy, Debug, PartialEq, Eq, Structural)]
pub enum HDiffError {
    NotFound,
    Unreadable,
    UnexpectedEof,
    DamagedSection,
    SeekOutOfRange,
    NullByteNotFound,
    VarintOverflow,
    SliceUnderflow,
    SliceOverflow,
    SliceUnderflowMidSequence,
    BufferedTooLarge,
    CoverCountNegative,
    CoverSizeNegative,
    CoverCountTooLarge,
    CoverSizeZero,
    CoverDataShort,
    CoverHeaderTruncated,
    CoverOldPosOverflow,
    CoverOldPosNegative,
    CoverNewPosOverflow,
    CoverLastNewPosOverflow,
    BackwardCovers,
    CoverLengthOverflow,
    CoverPastEnd,
    CopyLengthNegative,
    AddLengthNegative,
    RleLengthOverflow,
    NewDataSizeNegative,
    StepMemSizeNonPositive,
    StepSizeTooLarge,
    StepSizeExceedsBuffer,
    OldPosOverflow,
    OldPosUnderflow,
    NewPosOverflow,
    OldEndOverflow,
    NewEndOverflow,
    Rle0PastCodeBuffer,
    Rle0TruncatedLen0,
    Rle0TruncatedLenv,
    OffsetOverflow(LayoutPoint),
    SameFile,
    NotHDiff,
    HeaderParts(u64),
    VersionMarkerMissing,
    VersionInvalid,
    DirectoryPatch,
    UnsupportedVersion(i64),
    UnsupportedChecksum,
    UnsupportedCompression,
    CoverEndOverflow,
    OutputTooLarge,
    InputSizeMismatch { expected: i64, actual: i64 },
    OutputSizeMismatch { expected: i64, actual: i64 },
}

impl LayoutPoint {
    /// The words that name this point.
    pub open spec fn text(self) -> Seq<char> {
        match self {
            LayoutPoint::CoverStart => "offset overflow computing cover_start"@,
            LayoutPoint::AfterCover => "offset overflow after cover"@,
            LayoutPoint::RleCtrlStart => "offset overflow computing rle_ctrl_start"@,
            LayoutPoint::AfterRleCtrl => "offset overflow after rle_ctrl"@,
            LayoutPoint::RleCodeStart => "offset overflow computing rle_code_start"@,
            LayoutPoint::AfterRleCode => "offset overflow after rle_code"@,
            LayoutPoint::NewDataDiffStart => "offset overflow computing new_data_diff_start"@,
        }
    }

    fn describe(&self) -> (r: String)
        ensures
            r@ == self.text(),
    {
        match self {
            LayoutPoint::CoverStart => "offset overflow computing cover_start".to_owned(),
            LayoutPoint::AfterCover => "offset overflow after cover".to_owned(),
            LayoutPoint::RleCtrlStart => "offset overflow computing rle_ctrl_start".to_owned(),
            LayoutPoint::AfterRleCtrl => "offset overflow after rle_ctrl".to_owned(),
            LayoutPoint::RleCodeStart => "offset overflow computing rle_code_start".to_owned(),
            LayoutPoint::AfterRleCode => "offset overflow after rle_code".to_owned(),
            LayoutPoint::NewDataDiffStart =>
                "offset overflow computing new_data_diff_start".to_owned(),
        }
    }
}

/// A count and a size in a message: `head`, `a`, `mid`, `b`, `tail`.
fn sizes_message(head: &str, a: i64, mid: &str, b: i64, tail: &str) -> (r: String)
    ensures
        r@ == head@ + signed_decimal(a as int) + mid@ + signed_decimal(b as int) + tail@,
{
    let mut out = head.to_owned();
    push_signed_decimal(&mut out, a);
    out.append(mid);
    push_signed_decimal(&mut out, b);
    out.append(tail);
    out
}

impl HDiffError {
    /// The message of this error.
    pub open spec fn text(self) -> Seq<char> {
        match self {
            HDiffError::NotFound => "file not found"@,
            HDiffError::Unreadable => "file cannot be read"@,
            HDiffError::UnexpectedEof => "failed to fill whole buffer"@,
            HDiffError::DamagedSection => "compressed section cannot be decoded"@,
            HDiffError::SeekOutOfRange => "seek position out of range"@,
            HDiffError::NullByteNotFound => "null byte not found within buffer_size"@,
            HDiffError::VarintOverflow => "varint overflow"@,
            HDiffError::SliceUnderflow => "varint: buffer underflow"@,
            HDiffError::SliceOverflow => "varint overflow in slice"@,
            HDiffError::SliceUnderflowMidSequence => "varint: buffer underflow mid-sequence"@,
            HDiffError::BufferedTooLarge => "buffered stream exceeds maximum size"@,
            HDiffError::CoverCountNegative => "cover_count is negative"@,
            HDiffError::CoverSizeNegative => "cover_size is negative"@,
            HDiffError::CoverCountTooLarge =>
                "cover_count exceeds safe maximum or memory limit"@,
            HDiffError::CoverSizeZero => "cover_count > 0 but cover_size is 0"@,
            HDiffError::CoverDataShort => "failed to read cover data"@,
            HDiffError::CoverHeaderTruncated => "cover header data truncated"@,
            HDiffError::CoverOldPosOverflow => "old_pos overflow in cover header"@,
            HDiffError::CoverOldPosNegative => "invalid negative old_pos in cover header"@,
            HDiffError::CoverNewPosOverflow => "new_pos overflow in cover header"@,
            HDiffError::CoverLastNewPosOverflow => "last_new_pos overflow in cover header"@,
            HDiffError::BackwardCovers => "backward or overlapping covers in patch"@,
            HDiffError::CoverLengthOverflow => "cover length overflow"@,
            HDiffError::CoverPastEnd => "cover extends past expected output size"@,
            HDiffError::CopyLengthNegative => "copy_length is negative"@,
            HDiffError::AddLengthNegative => "add_length is negative"@,
            HDiffError::RleLengthOverflow => "RLE length overflow after +1"@,
            HDiffError::NewDataSizeNegative => "new_data_size is negative"@,
            HDiffError::StepMemSizeNonPositive => "step_mem_size is non-positive"@,
            HDiffError::StepSizeTooLarge => "patch step size exceeds maximum allowed"@,
            HDiffError::StepSizeExceedsBuffer =>
                "patch step size exceeds allocated buffer capacity"@,
            HDiffError::OldPosOverflow => "old_pos overflow"@,
            HDiffError::OldPosUnderflow => "old_pos underflow"@,
            HDiffError::NewPosOverflow => "new_pos overflow"@,
            HDiffError::OldEndOverflow => "old_end overflow"@,
            HDiffError::NewEndOverflow => "new_end overflow"@,
            HDiffError::Rle0PastCodeBuffer =>
                "RLE0 diff data exceeds remaining code buffer"@,
            HDiffError::Rle0TruncatedLen0 => "truncated RLE varint in RLE0 (len0)"@,
            HDiffError::Rle0TruncatedLenv => "truncated RLE varint in RLE0 (lenv)"@,
            HDiffError::OffsetOverflow(p) => p.text(),
            HDiffError::SameFile => "source and destination paths resolve to the same file"@,
            HDiffError::NotHDiff => "not a HDiff file format"@,
            HDiffError::HeaderParts(_) => "unsupported HDiff header format"@,
            HDiffError::VersionMarkerMissing => "cannot find 'HDIFF'"@,
            HDiffError::VersionInvalid => "invalid version string"@,
            HDiffError::DirectoryPatch =>
                "directory patches (HDIFF19) are not supported by the single-file patcher"@,
            HDiffError::UnsupportedVersion(v) => "unsupported HDiff version "@ + signed_decimal(
                v as int,
            ) + " (only 13 and 20 supported)"@,
            HDiffError::UnsupportedChecksum => "unsupported HDiff checksum mode"@,
            HDiffError::UnsupportedCompression => "unsupported compression mode"@,
            HDiffError::CoverEndOverflow => "cover_end_pos overflow in diff chunk info"@,
            HDiffError::OutputTooLarge => "patch output does not fit in memory"@,
            HDiffError::InputSizeMismatch { expected, actual } =>
                "input file size mismatch: expected "@ + signed_decimal(expected as int)
                + " bytes, got "@ + signed_decimal(actual as int) + " bytes"@,
            HDiffError::OutputSizeMismatch { expected, actual } =>
                "Patch output size mismatch: expected "@ + signed_decimal(expected as int)
                + " bytes, got "@ + signed_decimal(actual as int) + " bytes"@,
        }
    }

    /// The message of this error.
    pub fn message(&self) -> (r: String)
        ensures
            r@ == self.text(),
    {
        match self {
            HDiffError::NotFound => "file not found".to_owned(),
            HDiffError::Unreadable => "file cannot be read".to_owned(),
            HDiffError::UnexpectedEof => "failed to fill whole buffer".to_owned(),
            HDiffError::DamagedSection => "compressed section cannot be decoded".to_owned(),
            HDiffError::SeekOutOfRange => "seek position out of range".to_owned(),
            HDiffError::NullByteNotFound => "null byte not found within buffer_size".to_owned(),
            HDiffError::VarintOverflow => "varint overflow".to_owned(),
            HDiffError::SliceUnderflow => "varint: buffer underflow".to_owned(),
            HDiffError::SliceOverflow => "varint overflow in slice".to_owned(),
            HDiffError::SliceUnderflowMidSequence =>
                "varint: buffer underflow mid-sequence".to_owned(),
            HDiffError::BufferedTooLarge => "buffered stream exceeds maximum size".to_owned(),
            HDiffError::CoverCountNegative => "cover_count is negative".to_owned(),
            HDiffError::CoverSizeNegative => "cover_size is negative".to_owned(),
            HDiffError::CoverCountTooLarge =>
                "cover_count exceeds safe maximum or memory limit".to_owned(),
            HDiffError::CoverSizeZero => "cover_count > 0 but cover_size is 0".to_owned(),
            HDiffError::CoverDataShort => "failed to read cover data".to_owned(),
            HDiffError::CoverHeaderTruncated => "cover header data truncated".to_owned(),
            HDiffError::CoverOldPosOverflow => "old_pos overflow in cover header".to_owned(),
            HDiffError::CoverOldPosNegative =>
                "invalid negative old_pos in cover header".to_owned(),
            HDiffError::CoverNewPosOverflow => "new_pos overflow in cover header".to_owned(),
            HDiffError::CoverLastNewPosOverflow =>
                "last_new_pos overflow in cover header".to_owned(),
            HDiffError::BackwardCovers => "backward or overlapping covers in patch".to_owned(),
            HDiffError::CoverLengthOverflow => "cover length overflow".to_owned(),
            HDiffError::CoverPastEnd => "cover extends past expected output size".to_owned(),
            HDiffError::CopyLengthNegative => "copy_length is negative".to_owned(),
            HDiffError::AddLengthNegative => "add_length is negative".to_owned(),
            HDiffError::RleLengthOverflow => "RLE length overflow after +1".to_owned(),
            HDiffError::NewDataSizeNegative => "new_data_size is negative".to_owned(),
            HDiffError::StepMemSizeNonPositive => "step_mem_size is non-positive".to_owned(),
            HDiffError::StepSizeTooLarge => "patch step size exceeds maximum allowed".to_owned(),
            HDiffError::StepSizeExceedsBuffer =>
                "patch step size exceeds allocated buffer capacity".to_owned(),
            HDiffError::OldPosOverflow => "old_pos overflow".to_owned(),
            HDiffError::OldPosUnderflow => "old_pos underflow".to_owned(),
            HDiffError::NewPosOverflow => "new_pos overflow".to_owned(),
            HDiffError::OldEndOverflow => "old_end overflow".to_owned(),
            HDiffError::NewEndOverflow => "new_end overflow".to_owned(),
            HDiffError::Rle0PastCodeBuffer =>
                "RLE0 diff data exceeds remaining code buffer".to_owned(),
            HDiffError::Rle0TruncatedLen0 => "truncated RLE varint in RLE0 (len0)".to_owned(),
            HDiffError::Rle0TruncatedLenv => "truncated RLE varint in RLE0 (lenv)".to_owned(),
            HDiffError::OffsetOverflow(p) => p.describe(),
            HDiffError::SameFile =>
                "source and destination paths resolve to the same file".to_owned(),
            HDiffError::NotHDiff => "not a HDiff file format".to_owned(),
            HDiffError::HeaderParts(_) => "unsupported HDiff header format".to_owned(),
            HDiffError::VersionMarkerMissing => "cannot find 'HDIFF'".to_owned(),
            HDiffError::VersionInvalid => "invalid version string".to_owned(),
            HDiffError::DirectoryPatch =>
                "directory patches (HDIFF19) are not supported by the single-file patcher".to_owned(),
            HDiffError::UnsupportedVersion(v) => {
                let mut out = "unsupported HDiff version ".to_owned();
                push_signed_decimal(&mut out, *v);
                out.append(" (only 13 and 20 supported)");
                out
            },
            HDiffError::UnsupportedChecksum => "unsupported HDiff checksum mode".to_owned(),
            HDiffError::UnsupportedCompression => "unsupported compression mode".to_owned(),
            HDiffError::CoverEndOverflow =>
                "cover_end_pos overflow in diff chunk info".to_owned(),
            HDiffError::OutputTooLarge => "patch output does not fit in memory".to_owned(),
            HDiffError::InputSizeMismatch { expected, actual } => sizes_message(
                "input file size mismatch: expected ",
                *expected,
                " bytes, got ",
                *actual,
                " bytes",
            ),
            HDiffError::OutputSizeMismatch { expected, actual } => sizes_message(
                "Patch output size mismatch: expected ",
                *expected,
                " bytes, got ",
                *actual,
                " bytes",
            ),
        }
    }
}

} // verus!
