use flate2::write::DeflateEncoder;
use flate2::Compression;
use irmin::hdiffpatch::compression::{copy_file_range_of, get_clip_stream};
use irmin::hdiffpatch::compression_mode::CompressionMode;
use std::io::Write;

fn deflate(data: &[u8]) -> Vec<u8> {
    let mut encoder = DeflateEncoder::new(Vec::new(), Compression::default());
    encoder.write_all(data).unwrap();
    encoder.finish().unwrap()
}

fn lz4_frame(data: &[u8]) -> Vec<u8> {
    let mut compressed = Vec::new();
    let mut encoder = lz4::EncoderBuilder::new()
        .level(4)
        .build(&mut compressed)
        .unwrap();
    encoder.write_all(data).unwrap();
    let (_, result) = encoder.finish();
    result.unwrap();
    compressed
}

fn roundtrip(mode: CompressionMode, original: &[u8], compressed: Vec<u8>, buffered: bool) {
    let (reader, file_bytes) = get_clip_stream(
        &compressed,
        mode,
        0,
        original.len() as u64,
        compressed.len() as u64,
        buffered,
    )
    .unwrap();
    assert_eq!(file_bytes, compressed.len() as u64);
    assert_eq!(reader.data.len(), original.len());
    assert_eq!(reader.data, original);
    assert!(!reader.damaged);
}

fn too_large(mode: CompressionMode, extra: u64, comp_length: u64) {
    let max = 64u64 * 1024 * 1024;
    let result = get_clip_stream(&b"x".to_vec(), mode, 0, max + extra, comp_length, true);
    assert!(result.is_err());
    let msg = result.err().unwrap().message();
    assert!(
        msg.contains("exceeds maximum size"),
        "should report exceeding max buffered size, got: {msg}"
    );
}

#[test]
fn limited_file_read_normal_data() {
    let file = b"Hello World!".to_vec();
    assert_eq!(copy_file_range_of(&file, 0, 5), b"Hello");
}

#[test]
fn limited_file_read_at_boundary() {
    let file = b"ABCDE".to_vec();
    assert_eq!(copy_file_range_of(&file, 0, 5), b"ABCDE");
}

#[test]
fn limited_file_read_past_remaining_returns_zero() {
    let file = b"Hello World!".to_vec();
    assert!(copy_file_range_of(&file, 0, 0).is_empty());
}

#[test]
fn get_clip_stream_nocomp_unbuffered() {
    let file = b"Hello World!".to_vec();
    let (reader, file_bytes) =
        get_clip_stream(&file, CompressionMode::Nocomp, 0, 5, 5, false).unwrap();
    assert_eq!(file_bytes, 5);
    assert_eq!(reader.data, b"Hello");
}

#[test]
fn get_clip_stream_nocomp_buffered() {
    let file = b"Hello World!".to_vec();
    let (reader, file_bytes) =
        get_clip_stream(&file, CompressionMode::Nocomp, 0, 5, 5, true).unwrap();
    assert_eq!(file_bytes, 5);
    assert_eq!(reader.data, b"Hello");
}

#[test]
fn get_clip_stream_comp_length_zero_fallback() {
    let file = b"Hello World!".to_vec();
    let (reader, file_bytes) =
        get_clip_stream(&file, CompressionMode::Zstd, 0, 5, 0, false).unwrap();
    assert_eq!(file_bytes, 5);
    assert_eq!(reader.data, b"Hello");
}

#[test]
fn get_clip_stream_nocomp_buffered_exceeds_max_returns_error() {
    let max = 64u64 * 1024 * 1024;
    too_large(CompressionMode::Nocomp, 1, max + 1);
}

#[test]
fn get_clip_stream_zstd_buffered_exceeds_max_returns_error() {
    too_large(CompressionMode::Zstd, 1, 100);
}

#[test]
fn get_clip_stream_zstd_roundtrip() {
    let original = b"Hello World from zstd roundtrip test!";
    let compressed = zstd::encode_all(&original[..], 3).unwrap();
    roundtrip(CompressionMode::Zstd, original, compressed, true);
}

#[test]
fn get_clip_stream_zstd_unbuffered_roundtrip() {
    let original = b"Unbuffered zstd roundtrip test data.";
    let compressed = zstd::encode_all(&original[..], 3).unwrap();
    roundtrip(CompressionMode::Zstd, original, compressed, false);
}

#[test]
fn get_clip_stream_zlib_buffered_roundtrip() {
    let original = b"Hello World from zlib raw-deflate roundtrip test!";
    roundtrip(CompressionMode::Zlib, original, deflate(original), true);
}

#[test]
fn get_clip_stream_zlib_unbuffered_roundtrip() {
    let original = b"Unbuffered zlib raw-deflate roundtrip test data.";
    roundtrip(CompressionMode::Zlib, original, deflate(original), false);
}

#[test]
fn get_clip_stream_zlib_buffered_exceeds_max_returns_error() {
    too_large(CompressionMode::Zlib, 1, 100);
}

#[test]
fn get_clip_stream_nocomp_with_comp_length_succeeds() {
    let file = b"Hello World!".to_vec();
    let result = get_clip_stream(&file, CompressionMode::Nocomp, 0, 5, 5, false);
    assert!(result.is_ok(), "Nocomp should succeed with comp_length > 0");
}

#[test]
fn get_clip_stream_lz4_buffered_roundtrip() {
    let original: Vec<u8> = (0..65536u32)
        .map(|i| (i.wrapping_mul(7) ^ i >> 3) as u8)
        .collect();
    roundtrip(CompressionMode::Lz4, &original, lz4_frame(&original), true);
}

#[test]
fn get_clip_stream_lz4_unbuffered_roundtrip() {
    let original: Vec<u8> = (0..65536u32)
        .map(|i| (i.wrapping_mul(13) ^ i >> 5) as u8)
        .collect();
    roundtrip(CompressionMode::Lz4, &original, lz4_frame(&original), false);
}

/// A section that breaks off is read up to the break, and marked as damaged.
#[test]
fn truncated_section_is_damaged() {
    let original: Vec<u8> = (0..20000u32).map(|i| (i % 251) as u8).collect();
    let mut compressed = zstd::encode_all(&original[..], 3).unwrap();
    let half = compressed.len() / 2;
    compressed.truncate(half);
    let n = compressed.len() as u64;
    let (reader, _) =
        get_clip_stream(&compressed, CompressionMode::Zstd, 0, 20000, n, false).unwrap();
    assert!(reader.damaged);
}

/// A section that is damaged behind some bytes still hands those out where it is
/// not read into memory at once.
#[test]
fn bytes_before_the_damage_are_handed_out() {
    let mut section = vec![0x00, 0x40, 0x9c, 0xbf, 0x63];
    section.extend([9u8; 40_000]);
    section.push(0x07);
    let n = section.len() as u64;
    let (stream, _) =
        get_clip_stream(&section, CompressionMode::Zlib, 0, 50_000, n, false).unwrap();
    assert_eq!(stream.data, vec![9u8; 32_768]);
    assert!(stream.damaged);
    assert!(get_clip_stream(&section, CompressionMode::Zlib, 0, 50_000, n, true).is_err());

    let mut frame = lz4_frame(&vec![3u8; 1 << 20]);
    let n = frame.len();
    frame[n - 1] ^= 0xff;
    let (stream, _) =
        get_clip_stream(&frame, CompressionMode::Lz4, 0, 1 << 20, n as u64, false).unwrap();
    assert_eq!(stream.data, vec![3u8; 1 << 20]);

    let mut frame = zstd::encode_all(&[5u8; 1000][..], 1).unwrap();
    frame.extend(b"no frame");
    let n = frame.len() as u64;
    let (stream, _) =
        get_clip_stream(&frame, CompressionMode::Zstd, 0, 1000, n, false).unwrap();
    assert_eq!(stream.data, vec![5u8; 1000]);
    assert!(stream.damaged);
    assert!(get_clip_stream(&frame, CompressionMode::Zstd, 0, 1000, n, true).is_err());
}
