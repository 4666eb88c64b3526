use irmin::hdiffpatch::compression_mode::CompressionMode;
use irmin::hdiffpatch::error::HDiffError;
use irmin::hdiffpatch::header::{DiffChunkInfo, DiffSingleChunkInfo, HeaderInfo};
use irmin::hdiffpatch::patch_sf::{rle_varint, PatchSF, Rle0Decoder};


#[test]
fn rle_varint_empty_buffer_returns_none() {
    let mut pos = 0;
    assert_eq!(rle_varint(&Vec::new(), &mut pos), None);
}

#[test]
fn rle_varint_single_byte_ok() {
    let buf: Vec<u8> = vec![0b00000010]; // value = 2
    let mut pos = 0;
    assert_eq!(rle_varint(&buf, &mut pos), Some(2));
    assert_eq!(pos, 1);
}

#[test]
fn rle_varint_multi_byte_ok() {
    // The encoding is big-endian 7-bit groups with continuation in MSB.
    // Value 256 = 0x100 = (2 << 7) | 0
    // First byte: 2 with continuation = 0x82
    // Second byte: 0 with no continuation = 0x00
    let buf: Vec<u8> = vec![0x82, 0x00];
    let mut pos = 0;
    assert_eq!(rle_varint(&buf, &mut pos), Some(256));
    assert_eq!(pos, 2);
}

#[test]
fn rle_varint_truncated_multi_byte_returns_none() {
    // Truncated multi-byte varint (continuation set on first byte but no second
    // byte)
    let buf: Vec<u8> = vec![0x80];
    let mut pos = 0;
    assert_eq!(rle_varint(&buf, &mut pos), None);
}

#[test]
fn rle0decoder_skip_all_bytes() {
    // RLE stream: [3] -> skip 3 bytes
    let rle_buf: Vec<u8> = vec![3u8];
    let mut rle0 = Rle0Decoder::new(rle_buf);
    let mut data: Vec<u8> = vec![0xAAu8, 0xBB, 0xCC];
    rle0.add(&mut data).unwrap();
    // Should skip all three bytes without change
    assert_eq!(data, [0xAA, 0xBB, 0xCC]);
}

#[test]
fn rle0decoder_xor_some_bytes() {
    // RLE stream: skip 1 byte, then XOR 1 byte with 0x42
    // varints: len0=1, lenv=1
    // diff data after varints: 0x42
    let rle_buf: Vec<u8> = vec![1u8, 1u8, 0x42u8];
    let mut rle0 = Rle0Decoder::new(rle_buf);
    let mut data: Vec<u8> = vec![0x00u8, 0x00u8];
    rle0.add(&mut data).unwrap();
    // First byte skipped, second byte XORed with 0x42
    assert_eq!(data, [0x00, 0x42]);
}

#[test]
fn rle0decoder_truncated_varint_fails() {
    // Truncated rle0 stream: just continuation marker with no follow-up
    let rle_buf: Vec<u8> = vec![0x80]; // continuation bit set, but no next byte
    let mut rle0 = Rle0Decoder::new(rle_buf);
    let mut data: Vec<u8> = vec![0u8; 1];
    let result = rle0.add(&mut data);
    assert!(result.is_err());
}

#[test]
fn rle_varint_0x3fff_ok() {
    // 0x3FFF = 16383 = (127 << 7) | 127
    // First byte: 127 with continuation = 0xFF
    // Second byte: 127 without continuation = 0x7F
    let buf: Vec<u8> = vec![0xFF, 0x7F];
    let mut pos = 0;
    let result = rle_varint(&buf, &mut pos);
    assert_eq!(result, Some(0x3FFF));
    assert_eq!(pos, 2);
}

#[test]
fn rle_varint_single_byte_max_value() {
    // Single byte with no continuation: max value is 0x7F = 127
    let buf: Vec<u8> = vec![0x7F];
    let mut pos = 0;
    assert_eq!(rle_varint(&buf, &mut pos), Some(127));
    assert_eq!(pos, 1);
}

#[test]
fn rle_varint_single_byte_with_continuation() {
    // Single byte with continuation set: 0x81 = value 1 with more bytes
    // Next byte: 0x00 with no continuation = end
    // Value = (1 << 7) | 0 = 128
    let buf: Vec<u8> = vec![0x81, 0x00];
    let mut pos = 0;
    assert_eq!(rle_varint(&buf, &mut pos), Some(128));
    assert_eq!(pos, 2);
}

#[test]
fn rle_varint_value_128_two_byte_encoding() {
    // Value 128 = (1 << 7) | 0
    // Needs 2 bytes because 128 requires 8 bits but only 7 per byte
    // First byte: (1 & 0x7F) | 0x80 = 0x81 (continuation set, value 1)
    // Second byte: (0 & 0x7F) = 0x00 (no continuation, value 0)
    // Combined: (1 << 7) | 0 = 128
    let buf: Vec<u8> = vec![0x81, 0x00];
    let mut pos = 0;
    assert_eq!(rle_varint(&buf, &mut pos), Some(128));
}

#[test]
fn rle0decoder_alternating_skip_xor() {
    // Pattern: skip 1, xor 1, skip 1, xor 1
    // RLE stream: skip=1 (varint), xor_val=1 (varint), then 0xAA
    //            skip=1 (varint), xor_val=1 (varint), then 0xBB
    let rle_buf: Vec<u8> = vec![1u8, 1u8, 0xAAu8, 1u8, 1u8, 0xBBu8];
    let mut rle0 = Rle0Decoder::new(rle_buf);
    let mut data: Vec<u8> = vec![0x00u8, 0x00u8, 0x00u8, 0x00u8];
    rle0.add(&mut data).unwrap();
    // Skip 1 (keep 0x00), XOR 1 with 0xAA -> 0xAA
    // Skip 1 (keep 0x00), XOR 1 with 0xBB -> 0xBB
    assert_eq!(data, [0x00, 0xAA, 0x00, 0xBB]);
}

#[test]
fn rle0decoder_large_skip() {
    // Skip 10 bytes, then XOR 2 bytes
    // RLE stream: skip=10, len=2, xor_val=0x11, xor_val=0x22
    // Skip 10 bytes means copy 10 bytes unchanged, then apply XOR
    let mut rle_buf = Vec::new();
    // skip=10 encoded as rle varint
    rle_buf.push(10u8);
    // len=2
    rle_buf.push(2u8);
    // XOR values
    rle_buf.push(0x11u8);
    rle_buf.push(0x22u8);

    let mut rle0 = Rle0Decoder::new(rle_buf);
    let mut data: Vec<u8> = vec![0x00u8; 12];
    rle0.add(&mut data).unwrap();
    // First 10 bytes unchanged (0x00), last 2 XORed
    assert_eq!(data[..10], [0x00u8; 10]);
    assert_eq!(data[10], 0x11);
    assert_eq!(data[11], 0x22);
}

#[test]
fn patch_sf_new_creates_struct() {
    let header = HeaderInfo::default();
    let patcher = PatchSF::new(header);
    assert_eq!(patcher.header_info.comp_mode, CompressionMode::Nocomp);
}

#[test]
fn patch_sf_patch_missing_file_returns_not_found() {
    let header = HeaderInfo {
        single_chunk_info: DiffSingleChunkInfo {
            diff_data_pos: 0,
            uncompressed_size: 1,
            compressed_size: 0,
        },
        comp_mode: CompressionMode::Nocomp,
        chunk_info: DiffChunkInfo {
            cover_count: 1,
            ..Default::default()
        },
        new_data_size: 1,
        step_mem_size: 1,
        ..Default::default()
    };
    let patcher = PatchSF::new(header);
    let input: Vec<u8> = Vec::new();
    let result = patcher.patch(&input, None);
    assert!(result.is_err());
    let err = result.err().unwrap();
    assert_eq!(err, HDiffError::NotFound);
}

#[test]
fn patch_sf_patch_negative_cover_count_fails() {
    let file: Vec<u8> = Vec::new();
    let header = HeaderInfo {
        single_chunk_info: DiffSingleChunkInfo {
            diff_data_pos: 0,
            uncompressed_size: 0,
            compressed_size: 0,
        },
        comp_mode: CompressionMode::Nocomp,
        chunk_info: DiffChunkInfo {
            cover_count: -1,
            ..Default::default()
        },
        new_data_size: 1,
        step_mem_size: 1,
        ..Default::default()
    };
    let patcher = PatchSF::new(header);
    let input: Vec<u8> = Vec::new();
    let result = patcher.patch(&input, Some(&file));
    assert!(result.is_err());
    let msg = result.err().unwrap().message();
    assert!(msg.contains("cover_count is negative"), "msg={msg}");
}

#[test]
fn patch_sf_patch_negative_new_data_size_fails() {
    let file: Vec<u8> = Vec::new();
    let header = HeaderInfo {
        single_chunk_info: DiffSingleChunkInfo {
            diff_data_pos: 0,
            uncompressed_size: 0,
            compressed_size: 0,
        },
        comp_mode: CompressionMode::Nocomp,
        chunk_info: DiffChunkInfo {
            cover_count: 0,
            ..Default::default()
        },
        new_data_size: -1,
        step_mem_size: 1,
        ..Default::default()
    };
    let patcher = PatchSF::new(header);
    let input: Vec<u8> = Vec::new();
    let result = patcher.patch(&input, Some(&file));
    assert!(result.is_err());
    let msg = result.err().unwrap().message();
    assert!(msg.contains("new_data_size is negative"), "msg={msg}");
}

#[test]
fn patch_sf_patch_non_positive_step_mem_size_fails() {
    let file: Vec<u8> = Vec::new();
    let header = HeaderInfo {
        single_chunk_info: DiffSingleChunkInfo {
            diff_data_pos: 0,
            uncompressed_size: 0,
            compressed_size: 0,
        },
        comp_mode: CompressionMode::Nocomp,
        chunk_info: DiffChunkInfo {
            cover_count: 0,
            ..Default::default()
        },
        new_data_size: 0,
        step_mem_size: 0,
        ..Default::default()
    };
    let patcher = PatchSF::new(header);
    let input: Vec<u8> = Vec::new();
    let result = patcher.patch(&input, Some(&file));
    assert!(result.is_err());
    let msg = result.err().unwrap().message();
    assert!(msg.contains("step_mem_size is non-positive"), "msg={msg}");
}
