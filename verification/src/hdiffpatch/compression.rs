//! The sections of a patch as byte streams.

use std::io::Read;
use vstd::prelude::*;
use super::compression_mode::CompressionMode;
use super::error::HDiffError;
use super::parser::ByteStream;
use super::parser::StreamView;

verus! {

/// The largest section that is read into memory at once.
pub const MAX_BUFFERED_SIZE: u64 = 0x400_0000;

/// The base-two logarithm of the largest zstd window that is taken.
pub const MAX_WINDOW_LOG: u32 = 31;

/// What the zstd decoder, with windows of up to `2^window_log` bytes, makes of
/// all of `data`, where it comes to a clean end.
pub uninterp spec fn zstd_output(data: Seq<u8>, window_log: u32) -> Option<Seq<u8>>;

/// What the zstd decoder, with windows of up to `2^window_log` bytes, hands out
/// byte by byte before its first error.
pub uninterp spec fn zstd_bytes_of(data: Seq<u8>, window_log: u32) -> Seq<u8>;

/// What the raw deflate decoder makes of all of `data`, where it comes to a clean
/// end.
pub uninterp spec fn deflate_output(data: Seq<u8>) -> Option<Seq<u8>>;

/// What the raw deflate decoder hands out byte by byte before its first error.
pub uninterp spec fn deflate_bytes_of(data: Seq<u8>) -> Seq<u8>;

/// What the LZ4 frame decoder makes of all of `data`, where it comes to a clean
/// end.
pub uninterp spec fn lz4_output(data: Seq<u8>) -> Option<Seq<u8>>;

/// What the LZ4 frame decoder hands out byte by byte before its first error.
pub uninterp spec fn lz4_bytes_of(data: Seq<u8>) -> Seq<u8>;

/// `zstd::stream::read::Decoder`, read to its end: what came out, where the
/// decoder reported no error. It depends on the input alone.
#[verifier::external_body]
fn zstd_decode(data: &[u8], window_log: u32) -> (r: Option<Vec<u8>>)
    ensures
        match r {
            Some(out) => zstd_output(data@, window_log) == Some(out@),
            None => zstd_output(data@, window_log) is None,
        },
{
    let mut out = Vec::new();
    let mut decoder = zstd::stream::read::Decoder::new(data).ok()?;
    decoder.window_log_max(window_log).ok()?;
    decoder.read_to_end(&mut out).ok()?;
    Some(out)
}

/// `zstd::stream::read::Decoder`, read one byte at a time up to its first error.
/// What comes out so depends on the input alone.
#[verifier::external_body]
fn zstd_bytes(data: &[u8], window_log: u32) -> (r: Vec<u8>)
    ensures
        r@ == zstd_bytes_of(data@, window_log),
{
    match zstd::stream::read::Decoder::new(data) {
        Ok(mut decoder) => match decoder.window_log_max(window_log) {
            Ok(()) => decoder.bytes().map_while(Result::ok).collect(),
            Err(_) => Vec::new(),
        },
        Err(_) => Vec::new(),
    }
}

/// `flate2::read::DeflateDecoder`, read to its end: what came out, where the
/// decoder reported no error. It depends on the input alone.
#[verifier::external_body]
fn deflate_decode(data: &[u8]) -> (r: Option<Vec<u8>>)
    ensures
        match r {
            Some(out) => deflate_output(data@) == Some(out@),
            None => deflate_output(data@) is None,
        },
{
    let mut out = Vec::new();
    flate2::read::DeflateDecoder::new(data).read_to_end(&mut out).ok()?;
    Some(out)
}

/// `flate2::read::DeflateDecoder`, read one byte at a time up to its first error.
/// What comes out so depends on the input alone.
#[verifier::external_body]
fn deflate_bytes(data: &[u8]) -> (r: Vec<u8>)
    ensures
        r@ == deflate_bytes_of(data@),
{
    flate2::read::DeflateDecoder::new(data).bytes().map_while(Result::ok).collect()
}

/// `lz4::Decoder`, read to its end: what came out, where the decoder reported no
/// error. It depends on the input alone.
#[verifier::external_body]
fn lz4_decode(data: &[u8]) -> (r: Option<Vec<u8>>)
    ensures
        match r {
            Some(out) => lz4_output(data@) == Some(out@),
            None => lz4_output(data@) is None,
        },
{
    let mut out = Vec::new();
    lz4::Decoder::new(data).ok()?.read_to_end(&mut out).ok()?;
    Some(out)
}

/// `lz4::Decoder`, read one byte at a time up to its first error. What comes out
/// so depends on the input alone.
#[verifier::external_body]
fn lz4_bytes(data: &[u8]) -> (r: Vec<u8>)
    ensures
        r@ == lz4_bytes_of(data@),
{
    match lz4::Decoder::new(data) {
        Ok(decoder) => decoder.bytes().map_while(Result::ok).collect(),
        Err(_) => Vec::new(),
    }
}

/// The bytes that a compressed section stands for, where it decodes to its end.
pub open spec fn decoded_section(mode: CompressionMode, section: Seq<u8>) -> Option<Seq<u8>> {
    match mode {
        CompressionMode::Nocomp => Some(section),
        CompressionMode::Zstd => zstd_output(section, MAX_WINDOW_LOG),
        CompressionMode::Zlib => deflate_output(section),
        CompressionMode::Lz4 => lz4_output(section),
    }
}

/// The bytes that come out of a section that does not decode to its end.
pub open spec fn bytes_before_damage(mode: CompressionMode, section: Seq<u8>) -> Seq<u8> {
    match mode {
        CompressionMode::Nocomp => section,
        CompressionMode::Zstd => zstd_bytes_of(section, MAX_WINDOW_LOG),
        CompressionMode::Zlib => deflate_bytes_of(section),
        CompressionMode::Lz4 => lz4_bytes_of(section),
    }
}

/// The up to `n` bytes of `file` from `start`.
pub open spec fn file_range(file: Seq<u8>, start: int, n: int) -> Seq<u8> {
    if start >= file.len() {
        Seq::empty()
    } else if start + n > file.len() {
        file.subrange(start, file.len() as int)
    } else {
        file.subrange(start, start + n)
    }
}

/// The number of bytes that a section takes in the file.
pub open spec fn section_bytes(length: u64, comp_length: u64) -> u64 {
    if comp_length > 0 {
        comp_length
    } else {
        length
    }
}

/// The stream over what a section decoded to. In memory a section that does
/// not decode to its end is refused at once; else the reader meets the error
/// behind the bytes that come out before the damage.
pub open spec fn decoded_clip(
    decoded: Option<Seq<u8>>,
    before_damage: Seq<u8>,
    is_buffered: bool,
) -> Result<StreamView, HDiffError> {
    match decoded {
        Some(data) => Ok(StreamView { data, pos: 0, damaged: false }),
        None => if is_buffered {
            Err(HDiffError::DamagedSection)
        } else {
            Ok(StreamView { data: before_damage, pos: 0, damaged: true })
        },
    }
}

/// The section of `file` at `start` as a stream. A section without compression,
/// or without a compressed size, is taken as it stands.
pub open spec fn clip_stream(
    file: Seq<u8>,
    comp_mode: CompressionMode,
    start: u64,
    length: u64,
    comp_length: u64,
    is_buffered: bool,
) -> Result<StreamView, HDiffError> {
    if start > i64::MAX {
        Err(HDiffError::SeekOutOfRange)
    } else if is_buffered && length > MAX_BUFFERED_SIZE {
        Err(HDiffError::BufferedTooLarge)
    } else if comp_mode == CompressionMode::Nocomp || comp_length == 0 {
        let raw = file_range(file, start as int, length as int);
        if is_buffered && raw.len() < length {
            Err(HDiffError::UnexpectedEof)
        } else {
            Ok(StreamView { data: raw, pos: 0, damaged: false })
        }
    } else {
        let section = file_range(file, start as int, comp_length as int);
        decoded_clip(
            decoded_section(comp_mode, section),
            bytes_before_damage(comp_mode, section),
            is_buffered,
        )
    }
}

/// A copy of the up to `n` bytes of `file` from `start`.
pub fn copy_file_range_of(file: &Vec<u8>, start: u64, n: u64) -> (r: Vec<u8>)
    ensures
        r@ == file_range(file@, start as int, n as int),
{
    let total: usize = file.len();
    if start >= total as u64 {
        return Vec::new();
    }
    let from: usize = start as usize;
    let to: usize = if n > (total - from) as u64 {
        total
    } else {
        from + n as usize
    };
    vstd::slice::slice_to_vec(vstd::slice::slice_subrange(file.as_slice(), from, to))
}

/// Decodes a compressed section to its end.
pub fn decode_section(mode: CompressionMode, section: &Vec<u8>) -> (r: Option<Vec<u8>>)
    requires
        mode != CompressionMode::Nocomp,
    ensures
        match r {
            Some(out) => decoded_section(mode, section@) == Some(out@),
            None => decoded_section(mode, section@) is None,
        },
{
    match mode {
        CompressionMode::Zstd => zstd_decode(section.as_slice(), MAX_WINDOW_LOG),
        CompressionMode::Zlib => deflate_decode(section.as_slice()),
        _ => lz4_decode(section.as_slice()),
    }
}

/// Decodes a compressed section as far as it goes.
pub fn decode_damaged(mode: CompressionMode, section: &Vec<u8>) -> (r: Vec<u8>)
    requires
        mode != CompressionMode::Nocomp,
    ensures
        r@ == bytes_before_damage(mode, section@),
{
    match mode {
        CompressionMode::Zstd => zstd_bytes(section.as_slice(), MAX_WINDOW_LOG),
        CompressionMode::Zlib => deflate_bytes(section.as_slice()),
        _ => lz4_bytes(section.as_slice()),
    }
}

/// The stream over what a section decoded to.
pub fn clip_of_decoded(decoded: Option<Vec<u8>>, before_damage: Vec<u8>, is_buffered: bool) -> (r:
    Result<ByteStream, HDiffError>)
    ensures
        ({
            let data = match decoded {
                Some(d) => Some(d@),
                None => None,
            };
            match r {
                Ok(s) => s.wf() && decoded_clip(data, before_damage@, is_buffered) == Ok::<
                    StreamView,
                    HDiffError,
                >(s@),
                Err(e) => decoded_clip(data, before_damage@, is_buffered) == Err::<
                    StreamView,
                    HDiffError,
                >(e),
            }
        }),
{
    match decoded {
        Some(data) => Ok(ByteStream::new(data)),
        None => if is_buffered {
            Err(HDiffError::DamagedSection)
        } else {
            Ok(ByteStream::of_decoded(before_damage, true))
        },
    }
}

/// The section of `file` at `start` as a stream, and the number of bytes that
/// it takes in the file.
pub fn get_clip_stream(
    file: &Vec<u8>,
    comp_mode: CompressionMode,
    start: u64,
    length: u64,
    comp_length: u64,
    is_buffered: bool,
) -> (r: Result<(ByteStream, u64), HDiffError>)
    ensures
        match r {
            Ok((s, n)) => s.wf() && n == section_bytes(length, comp_length) && clip_stream(
                file@,
                comp_mode,
                start,
                length,
                comp_length,
                is_buffered,
            ) == Ok::<StreamView, HDiffError>(s@),
            Err(e) => clip_stream(file@, comp_mode, start, length, comp_length, is_buffered)
                == Err::<StreamView, HDiffError>(e),
        },
{
    let file_bytes: u64 = if comp_length > 0 {
        comp_length
    } else {
        length
    };
    if start > i64::MAX as u64 {
        return Err(HDiffError::SeekOutOfRange);
    }
    if is_buffered && length > MAX_BUFFERED_SIZE {
        return Err(HDiffError::BufferedTooLarge);
    }
    if comp_mode == CompressionMode::Nocomp || comp_length == 0 {
        let raw: Vec<u8> = copy_file_range_of(file, start, length);
        if is_buffered && (raw.len() as u64) < length {
            return Err(HDiffError::UnexpectedEof);
        }
        return Ok((ByteStream::new(raw), file_bytes));
    }
    let section: Vec<u8> = copy_file_range_of(file, start, comp_length);
    let decoded: Option<Vec<u8>> = decode_section(comp_mode, &section);
    let before_damage: Vec<u8> = if decoded.is_none() && !is_buffered {
        decode_damaged(comp_mode, &section)
    } else {
        Vec::new()
    };
    match clip_of_decoded(decoded, before_damage, is_buffered) {
        Ok(s) => Ok((s, file_bytes)),
        Err(e) => Err(e),
    }
}

} // verus!
