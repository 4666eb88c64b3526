use irmin::hdiffpatch::header::{
    RleRefClip, MAX_ARRAY_POOL_LEN, MAX_ARRAY_POOL_SECOND_OFFSET,
};
use irmin::hdiffpatch::parser::ByteStream;
use irmin::hdiffpatch::patch_core::{
    tbytes_copy_stream_from_old_clip, tbytes_determine_rle_type, tbytes_set_rle,
    tbytes_set_rle_single, tbytes_set_rle_vector_software, ByteCursor,
};



// ========== RleRefClip Struct Tests ==========

#[test]
fn rle_ref_clip_default_initialization() {
    let rle = RleRefClip::default();
    assert_eq!(rle.mem_copy_length, 0, "mem_copy_length should be 0");
    assert_eq!(rle.mem_set_length, 0, "mem_set_length should be 0");
    assert_eq!(rle.mem_set_value, 0, "mem_set_value should be 0");
}

#[test]
fn rle_ref_clip_copy_is_independent() {
    let rle1 = RleRefClip {
        mem_set_value: 0x42,
        mem_set_length: 10,
        ..Default::default()
    };

    let _rle2 = rle1; // Copy (not reference) - verified to be independent

    assert_eq!(
        rle1.mem_set_value, 0x42,
        "original should be unchanged after copy modification"
    );
}

// ========== tbytes_set_rle_single Tests ==========

/// Test mem_set_value == 0 behavior: should skip bytes without modification
#[test]
fn tbytes_set_rle_single_skip_when_mem_set_value_zero() {
    let mut rle_loader = RleRefClip {
        mem_copy_length: 0,
        mem_set_length: 5,
        mem_set_value: 0,
    };

    let mut cache = ByteCursor::new(vec![0xAA, 0xBB, 0xCC, 0xDD, 0xEE, 0xFF]);
    let mut copy_length: i64 = 5;
    let mut shared_buffer = vec![0u8; 32];

    let result = tbytes_set_rle_single(
        &mut rle_loader,
        &mut cache,
        &mut copy_length,
        &mut shared_buffer,
    );

    assert!(result.is_ok(), "tbytes_set_rle_single should succeed");
    assert_eq!(copy_length, 0, "copy_length should be fully consumed");
    assert_eq!(
        rle_loader.mem_set_length, 0,
        "mem_set_length should be exhausted"
    );
    assert_eq!(cache.position(), 5, "cache position should advance by 5");
}

/// Test mem_set_value == 0xFF (byte flip via wrapping_neg): 0 - 1 = 0xFF
#[test]
fn tbytes_set_rle_single_byte_flip_with_ff() {
    let mut rle_loader = RleRefClip {
        mem_copy_length: 0,
        mem_set_length: 3,
        mem_set_value: 0xFF, // wrapping_neg(1) = 0xFF
    };

    let mut cache = ByteCursor::new(vec![0x00, 0x7F, 0x80]);
    let mut copy_length: i64 = 3;
    let mut shared_buffer = vec![0u8; 32];

    let result = tbytes_set_rle_single(
        &mut rle_loader,
        &mut cache,
        &mut copy_length,
        &mut shared_buffer,
    );

    assert!(result.is_ok(), "tbytes_set_rle_single should succeed");
    assert_eq!(copy_length, 0, "copy_length should be fully consumed");

    // Verify wrapping_add with 0xFF (which is wrapping_neg of 1):
    // 0x00 + 0xFF = 0xFF (255)
    // 0x7F (127) + 0xFF (255) = 382 mod 256 = 126 = 0x7E
    // 0x80 (128) + 0xFF (255) = 383 mod 256 = 127 = 0x7F
    assert_eq!(shared_buffer[0], 0xFF, "byte 0 should be 0xFF");
    assert_eq!(shared_buffer[1], 0x7E, "byte 1 should be 0x7E");
    assert_eq!(shared_buffer[2], 0x7F, "byte 2 should be 0x7F");
}

/// Test wrapping_add behavior at boundary (0xFF + 0x01 = 0x00)
#[test]
fn tbytes_set_rle_single_wrapping_at_boundary() {
    let mut rle_loader = RleRefClip {
        mem_copy_length: 0,
        mem_set_length: 4,
        mem_set_value: 0x01, // wrapping_add will wrap at 0xFF
    };

    // Bytes at boundary: 0xFF should wrap to 0x00
    let mut cache = ByteCursor::new(vec![0xFF, 0xFF, 0x00, 0x7F]);
    let mut copy_length: i64 = 4;
    let mut shared_buffer = vec![0u8; 32];

    let result = tbytes_set_rle_single(
        &mut rle_loader,
        &mut cache,
        &mut copy_length,
        &mut shared_buffer,
    );

    assert!(result.is_ok(), "tbytes_set_rle_single should succeed");
    // 0xFF + 0x01 = 0x00 (wrapped), 0xFF + 0x01 = 0x00, 0x00 + 0x01 = 0x01, 0x7F +
    // 0x01 = 0x80
    assert_eq!(shared_buffer[0], 0x00, "0xFF + 0x01 should wrap to 0x00");
    assert_eq!(shared_buffer[1], 0x00, "0xFF + 0x01 should wrap to 0x00");
    assert_eq!(shared_buffer[2], 0x01, "0x00 + 0x01 should be 0x01");
    assert_eq!(shared_buffer[3], 0x80, "0x7F + 0x01 should be 0x80");
}

/// Test mem_set_length > copy_length: should only process copy_length bytes
#[test]
fn tbytes_set_rle_single_truncates_to_copy_length() {
    let mut rle_loader = RleRefClip {
        mem_copy_length: 0,
        mem_set_length: 10, // More than copy_length
        mem_set_value: 0x0F,
    };

    let mut cache = ByteCursor::new(vec![0x00, 0x11, 0x22, 0x33]);
    let mut copy_length: i64 = 4; // Only 4 bytes to process
    let mut shared_buffer = vec![0u8; 32];

    let result = tbytes_set_rle_single(
        &mut rle_loader,
        &mut cache,
        &mut copy_length,
        &mut shared_buffer,
    );

    assert!(result.is_ok(), "tbytes_set_rle_single should succeed");
    assert_eq!(copy_length, 0, "copy_length should be exhausted");
    // mem_set_length should be reduced by 4 (copy_length), not to 0
    assert_eq!(
        rle_loader.mem_set_length, 6,
        "mem_set_length should have 6 remaining"
    );
}

/// Test mem_set_length == 0: should return early without modification
#[test]
fn tbytes_set_rle_single_early_return_when_no_length() {
    let mut rle_loader = RleRefClip {
        mem_copy_length: 0,
        mem_set_length: 0, // No work to do
        mem_set_value: 0xFF,
    };

    let mut cache = ByteCursor::new(vec![0xAA, 0xBB]);
    let mut copy_length: i64 = 2;
    let mut shared_buffer = vec![0u8; 32];
    let initial_pos = cache.position();

    let result = tbytes_set_rle_single(
        &mut rle_loader,
        &mut cache,
        &mut copy_length,
        &mut shared_buffer,
    );

    assert!(result.is_ok(), "tbytes_set_rle_single should succeed");
    assert_eq!(copy_length, 2, "copy_length should be unchanged");
    assert_eq!(
        cache.position(),
        initial_pos,
        "cache position should not advance"
    );
}

// ========== tbytes_set_rle_vector_software Tests ==========

/// Test wrapping_add edge case: 0xFF + 0x01 = 0x00
#[test]
fn tbytes_set_rle_vector_wrapping_add_edge_case() {
    let mut rle_loader = RleRefClip {
        mem_copy_length: 2,
        mem_set_length: 0,
        mem_set_value: 0,
    };

    let mut cache = ByteCursor::new(Vec::new());
    let mut copy_length: i64 = 2;
    let mut buf = vec![0u8; 32];

    // Set up buffer with test values at offset positions
    // rle_idx = 0 (rle data), old_idx = MAX_ARRAY_POOL_SECOND_OFFSET (16)
    let rle_idx = 0;
    let old_idx = 16;

    buf[rle_idx] = 0xFF;
    buf[old_idx] = 0x01; // 0xFF + 0x01 = 0x00 (wrapped)

    let result = tbytes_set_rle_vector_software(
        &mut rle_loader,
        &mut cache,
        &mut copy_length,
        1, // decode_step = 1
        &mut buf,
        rle_idx,
        old_idx,
    );

    assert!(
        result.is_ok(),
        "tbytes_set_rle_vector_software should succeed"
    );
    assert_eq!(buf[rle_idx], 0x00, "0xFF + 0x01 should wrap to 0x00");
    assert_eq!(
        rle_loader.mem_copy_length, 1,
        "mem_copy_length should be decremented"
    );
    assert_eq!(copy_length, 1, "copy_length should be decremented");
}

/// Test wrapping_add with 0x80 + 0x80 = 0x00
#[test]
fn tbytes_set_rle_vector_wrapping_add_0x80_0x80() {
    let mut rle_loader = RleRefClip {
        mem_copy_length: 1,
        mem_set_length: 0,
        mem_set_value: 0,
    };

    let mut cache = ByteCursor::new(Vec::new());
    let mut copy_length: i64 = 1;
    let mut buf = vec![0u8; 32];

    let rle_idx = 4;
    let old_idx = 20;

    buf[rle_idx] = 0x80;
    buf[old_idx] = 0x80; // 0x80 + 0x80 = 0x00 (wrapped, 128 + 128 = 256 mod 256)

    let result = tbytes_set_rle_vector_software(
        &mut rle_loader,
        &mut cache,
        &mut copy_length,
        1,
        &mut buf,
        rle_idx,
        old_idx,
    );

    assert!(
        result.is_ok(),
        "tbytes_set_rle_vector_software should succeed"
    );
    assert_eq!(buf[rle_idx], 0x00, "0x80 + 0x80 should wrap to 0x00");
}

/// Test multi-byte decode_step with wrapping at boundary
#[test]
fn tbytes_set_rle_vector_multi_byte_with_wrapping() {
    let mut rle_loader = RleRefClip {
        mem_copy_length: 3,
        mem_set_length: 0,
        mem_set_value: 0,
    };

    let mut cache = ByteCursor::new(Vec::new());
    let mut copy_length: i64 = 3;
    let mut buf = vec![0u8; 32];

    let rle_idx = 0;
    let old_idx = 16;

    // First byte: no overflow
    buf[rle_idx] = 0x10;
    buf[old_idx] = 0x20; // 0x10 + 0x20 = 0x30

    // Second byte: boundary case
    buf[rle_idx + 1] = 0xFE;
    buf[old_idx + 1] = 0x03; // 0xFE + 0x03 = 0x01 (wrapped, 254 + 3 = 257 mod 256 = 1)

    // Third byte: normal case
    buf[rle_idx + 2] = 0x7F;
    buf[old_idx + 2] = 0x01; // 0x7F + 0x01 = 0x80

    let result = tbytes_set_rle_vector_software(
        &mut rle_loader,
        &mut cache,
        &mut copy_length,
        3,
        &mut buf,
        rle_idx,
        old_idx,
    );

    assert!(
        result.is_ok(),
        "tbytes_set_rle_vector_software should succeed"
    );
    assert_eq!(buf[rle_idx], 0x30, "0x10 + 0x20 should be 0x30");
    assert_eq!(buf[rle_idx + 1], 0x01, "0xFE + 0x03 should wrap to 0x01");
    assert_eq!(buf[rle_idx + 2], 0x80, "0x7F + 0x01 should be 0x80");
}

/// Test mem_copy_length is properly decremented
#[test]
fn tbytes_set_rle_vector_decrements_mem_copy_length() {
    let mut rle_loader = RleRefClip {
        mem_copy_length: 5,
        mem_set_length: 0,
        mem_set_value: 0,
    };

    let mut cache = ByteCursor::new(Vec::new());
    let mut copy_length: i64 = 5;
    let mut buf = vec![0u8; 32];

    // Fill buf with test data at offset positions
    for i in 0..5 {
        buf[i] = 0;
        buf[16 + i] = i as u8;
    }

    let _ = tbytes_set_rle_vector_software(
        &mut rle_loader,
        &mut cache,
        &mut copy_length,
        3, // decode_step = 3
        &mut buf,
        0,
        16,
    );

    assert_eq!(
        rle_loader.mem_copy_length, 2,
        "mem_copy_length should be 5 - 3 = 2"
    );
    assert_eq!(copy_length, 2, "copy_length should be 5 - 3 = 2");
}

// ========== RLE Edge Case: mem_set_step capping ==========

/// When mem_set_length exceeds shared_buffer.len(), the step should be
/// capped to the buffer size. Only shared_buffer.len() bytes are processed.
#[test]
fn tbytes_set_rle_single_caps_by_small_shared_buffer() {
    let mut rle_loader = RleRefClip {
        mem_copy_length: 0,
        mem_set_length: 100, // much larger than buffer
        mem_set_value: 0x01,
    };

    let mut cache = ByteCursor::new(vec![0x00; 100]);
    let mut copy_length: i64 = 100;
    let mut shared_buffer = vec![0u8; 4]; // tiny buffer

    let result = tbytes_set_rle_single(
        &mut rle_loader,
        &mut cache,
        &mut copy_length,
        &mut shared_buffer,
    );

    assert!(result.is_ok(), "should succeed even with tiny buffer");
    // mem_set_step = min(100, 100, 4) = 4 bytes processed
    assert_eq!(copy_length, 96, "copy_length should be reduced by 4");
    assert_eq!(
        rle_loader.mem_set_length, 96,
        "mem_set_length should have 96 remaining"
    );
}

/// When both mem_set_length and copy_length are larger than the buffer,
/// but copy_length is the smallest, step is capped to copy_length.
#[test]
fn tbytes_set_rle_single_caps_by_copy_length_when_smallest() {
    let mut rle_loader = RleRefClip {
        mem_copy_length: 0,
        mem_set_length: 100,
        mem_set_value: 0x01,
    };

    let mut cache = ByteCursor::new(vec![0x00; 100]);
    let mut copy_length: i64 = 3; // smaller than buffer
    let mut shared_buffer = vec![0u8; 32];

    let result = tbytes_set_rle_single(
        &mut rle_loader,
        &mut cache,
        &mut copy_length,
        &mut shared_buffer,
    );

    assert!(result.is_ok());
    // mem_set_step = min(100, 3, 32) = 3
    assert_eq!(copy_length, 0, "copy_length should be exhausted");
    assert_eq!(
        rle_loader.mem_set_length, 97,
        "mem_set_length should have 97 remaining"
    );
}

/// When mem_set_value is 0 and step is capped by small buffer, position
/// advances by the buffer size without modifying data.
#[test]
fn tbytes_set_rle_single_zero_value_capped_by_buffer() {
    let mut rle_loader = RleRefClip {
        mem_copy_length: 0,
        mem_set_length: 50,
        mem_set_value: 0, // skip mode
    };

    let mut cache = ByteCursor::new(vec![0xAA; 50]);
    let mut copy_length: i64 = 50;
    let mut shared_buffer = vec![0u8; 8]; // tiny buffer

    let result = tbytes_set_rle_single(
        &mut rle_loader,
        &mut cache,
        &mut copy_length,
        &mut shared_buffer,
    );

    assert!(result.is_ok());
    // mem_set_step = min(50, 50, 8) = 8 bytes skipped
    assert_eq!(cache.position(), 8, "should advance 8 bytes");
    assert_eq!(copy_length, 42, "copy_length should be 50 - 8 = 42");
    assert_eq!(
        rle_loader.mem_set_length, 42,
        "mem_set_length should have 42 remaining"
    );
}

// ========== RLE Edge Case: empty streams ==========

/// When both mem_set_length and mem_copy_length are 0, tbytes_set_rle
/// should return immediately without doing anything.
#[test]
fn tbytes_set_rle_empty_stream_no_modification() {
    let mut rle_loader = RleRefClip {
        mem_copy_length: 0,
        mem_set_length: 0,
        mem_set_value: 0,
    };

    let mut cache = ByteCursor::new(vec![0xAA, 0xBB, 0xCC]);
    let mut copy_length: i64 = 3;
    let mut shared_buffer = vec![0u8; 32];
    let initial_pos = cache.position();

    // Create an empty rle_code_stream (no data to read)
    let mut rle_code = ByteStream::new(Vec::new());
    let result = tbytes_set_rle(
        &mut rle_loader,
        &mut cache,
        &mut copy_length,
        &mut shared_buffer,
        &mut rle_code,
    );

    assert!(result.is_ok(), "empty RLE stream should succeed");
    assert_eq!(copy_length, 3, "copy_length should be unchanged");
    assert_eq!(
        cache.position(),
        initial_pos,
        "cache position should not advance"
    );
}

// ========== RLE Edge Case: mem_copy_length bounds ==========

/// When mem_copy_length exceeds MAX_ARRAY_POOL_SECOND_OFFSET, the decode
/// step is capped to MAX_ARRAY_POOL_SECOND_OFFSET in tbytes_set_rle.
#[test]
fn tbytes_set_rle_caps_decode_step_to_second_offset() {
    // Setup: mem_copy_length much larger than MAX_ARRAY_POOL_SECOND_OFFSET
    // decode_step = min(mem_copy_length, copy_length, MAX_ARRAY_POOL_SECOND_OFFSET)
    // This tests the cap by MAX_ARRAY_POOL_SECOND_OFFSET
    let offset = MAX_ARRAY_POOL_SECOND_OFFSET;
    // We can't easily test the full tbytes_set_rle with real I/O here because
    // it reads from rle_code_stream and cache. Instead, verify the constant
    // and the capping logic is exercised via tbytes_set_rle_vector_software.
    // Test that decode_step exceeding available data returns correctly.
    let mut rle_loader = RleRefClip {
        mem_copy_length: offset as i64 + 100, // exceeds offset
        mem_set_length: 0,
        mem_set_value: 0,
    };

    let mut cache = ByteCursor::new(Vec::new());
    let mut copy_length: i64 = offset as i64 + 100;
    // Need large enough buffer for rle_idx and old_idx regions
    let mut buf = vec![0u8; offset * 2 + 100];

    // Fill with test data at old_idx
    for i in 0..offset {
        buf[offset + i] = (i % 256) as u8;
    }

    // decode_step = min(mem_copy_length, copy_length, MAX_ARRAY_POOL_SECOND_OFFSET)
    // = min(offset+100, offset+100, offset) = offset
    let result = tbytes_set_rle_vector_software(
        &mut rle_loader,
        &mut cache,
        &mut copy_length,
        offset, // decode_step = MAX_ARRAY_POOL_SECOND_OFFSET
        &mut buf,
        0,      // rle_idx
        offset, // old_idx
    );

    assert!(
        result.is_ok(),
        "should succeed with decode_step at MAX_ARRAY_POOL_SECOND_OFFSET"
    );
    assert_eq!(
        rle_loader.mem_copy_length, 100,
        "mem_copy_length should have 100 remaining after cap"
    );
    assert_eq!(
        copy_length, 100,
        "copy_length should have 100 remaining after cap"
    );
}

/// When mem_copy_length is zero, tbytes_set_rle skips the vector step
/// entirely (returns early after calling tbytes_set_rle_single).
#[test]
fn tbytes_set_rle_zero_copy_length_returns_early() {
    let mut rle_loader = RleRefClip {
        mem_copy_length: 0,
        mem_set_length: 0,
        mem_set_value: 0,
    };

    let mut cache = ByteCursor::new(vec![0x00; 8]);
    let mut copy_length: i64 = 8;
    let mut shared_buffer = vec![0u8; 32];
    let mut rle_code = ByteStream::new(Vec::new());

    let result = tbytes_set_rle(
        &mut rle_loader,
        &mut cache,
        &mut copy_length,
        &mut shared_buffer,
        &mut rle_code,
    );

    assert!(result.is_ok());
    // Since both mem_set_length and mem_copy_length are 0, nothing happens
    assert_eq!(copy_length, 8, "nothing consumed");
}

// ========== tbytes_copy_stream_from_old_clip Negative Tests ==========

/// tbytes_copy_stream_from_old_clip with negative copy_length should return
/// an error.
#[test]
fn tbytes_copy_stream_from_old_clip_negative_copy_length_fails() {
    let mut cache = ByteCursor::new(Vec::new());
    let mut reader = ByteStream::new(Vec::new());
    let result = tbytes_copy_stream_from_old_clip(&mut cache, &mut reader, -1);
    assert!(result.is_err(), "negative copy_length should fail");
    let msg = result.unwrap_err().message();
    assert!(msg.contains("copy_length is negative"), "msg={msg}");
}

// ========== tbytes_set_rle_single Additional Wrapping Tests ==========

/// tbytes_set_rle_single with basic non-zero addition (add 0x10).
#[test]
fn tbytes_set_rle_single_basic_addition() {
    let mut rle_loader = RleRefClip {
        mem_copy_length: 0,
        mem_set_length: 3,
        mem_set_value: 0x10, // add 16 to each byte
    };
    let mut cache = ByteCursor::new(vec![0x10, 0x20, 0x30]);
    let mut copy_length: i64 = 3;
    let mut shared_buffer = vec![0u8; 32];

    let result = tbytes_set_rle_single(
        &mut rle_loader,
        &mut cache,
        &mut copy_length,
        &mut shared_buffer,
    );

    assert!(result.is_ok());
    // 0x10 + 0x10 = 0x20, 0x20 + 0x10 = 0x30, 0x30 + 0x10 = 0x40
    assert_eq!(shared_buffer[0], 0x20);
    assert_eq!(shared_buffer[1], 0x30);
    assert_eq!(shared_buffer[2], 0x40);
}

/// tbytes_set_rle_single with single byte addition (minimum non-trivial
/// case).
#[test]
fn tbytes_set_rle_single_single_byte_addition() {
    let mut rle_loader = RleRefClip {
        mem_copy_length: 0,
        mem_set_length: 1,
        mem_set_value: 0x01,
    };
    let mut cache = ByteCursor::new(vec![0x00]);
    let mut copy_length: i64 = 1;
    let mut shared_buffer = vec![0u8; 32];

    let result = tbytes_set_rle_single(
        &mut rle_loader,
        &mut cache,
        &mut copy_length,
        &mut shared_buffer,
    );

    assert!(result.is_ok());
    assert_eq!(copy_length, 0, "copy_length should be consumed");
    assert_eq!(
        rle_loader.mem_set_length, 0,
        "mem_set_length should be exhausted"
    );
    assert_eq!(shared_buffer[0], 0x01, "0x00 + 0x01 = 0x01");
}

/// tbytes_set_rle_single with non-zero mem_set_value capped by a small
/// shared buffer.
#[test]
fn tbytes_set_rle_single_non_zero_capped_by_small_buffer() {
    let mut rle_loader = RleRefClip {
        mem_copy_length: 0,
        mem_set_length: 100,
        mem_set_value: 0x10, // non-zero
    };
    let mut cache = ByteCursor::new(vec![0x00; 100]);
    let mut copy_length: i64 = 100;
    let mut shared_buffer = vec![0u8; 4]; // tiny buffer

    let result = tbytes_set_rle_single(
        &mut rle_loader,
        &mut cache,
        &mut copy_length,
        &mut shared_buffer,
    );

    assert!(result.is_ok());
    // mem_set_step = min(100, 100, 4) = 4 bytes processed
    assert_eq!(copy_length, 96, "copy_length should be reduced by 4");
    assert_eq!(
        rle_loader.mem_set_length, 96,
        "mem_set_length should have 96 remaining"
    );
    // Verify the bytes were modified (non-zero code path)
    assert_eq!(shared_buffer[0], 0x10, "0x00 + 0x10 = 0x10");
    assert_eq!(shared_buffer[3], 0x10, "0x00 + 0x10 = 0x10");
}

/// tbytes_set_rle_single with mem_set_value = 0x80 and data = 0x80 tests
/// wrapping at 0x80 + 0x80 = 0x00.
#[test]
fn tbytes_set_rle_single_wrapping_0x80_plus_0x80() {
    let mut rle_loader = RleRefClip {
        mem_copy_length: 0,
        mem_set_length: 1,
        mem_set_value: 0x80,
    };
    let mut cache = ByteCursor::new(vec![0x80]);
    let mut copy_length: i64 = 1;
    let mut shared_buffer = vec![0u8; 32];

    let result = tbytes_set_rle_single(
        &mut rle_loader,
        &mut cache,
        &mut copy_length,
        &mut shared_buffer,
    );

    assert!(result.is_ok());
    assert_eq!(shared_buffer[0], 0x00, "0x80 + 0x80 should wrap to 0x00");
}

/// A run of one value that is longer than the buffer is drained in several steps
/// before the next control byte is read.
#[test]
fn long_runs_are_drained_through_a_small_buffer() {
    let mut loader = RleRefClip::default();
    let mut cache = ByteCursor::new(vec![10u8, 20, 30, 40]);
    let mut buffer = vec![0u8; 2];
    let mut ctrl = ByteStream::new(vec![0x43]);
    let mut code = ByteStream::new(vec![]);
    let result = tbytes_determine_rle_type(
        &mut loader,
        &mut cache,
        4,
        &mut buffer,
        &mut ctrl,
        &mut code,
    );
    assert_eq!(result, Ok(()));
    assert_eq!(cache.data, vec![9, 19, 29, 39]);
    assert_eq!(cache.position(), 4);
    assert_eq!(ctrl.position(), 1);
}

/// A stretch that is decoded in two parts comes out as in one, also where a run of
/// zeros reaches behind the bytes in the cache.
#[test]
fn stretches_may_be_split() {
    let ctrl = vec![0xC2, 0x42, 0x05];
    let code = vec![1u8, 2, 3];
    let decode = |parts: &[i64]| {
        let mut loader = RleRefClip::default();
        let mut cache = ByteCursor::new(vec![10u8, 10, 10, 10, 10, 10, 10]);
        let mut buffer = vec![0u8; MAX_ARRAY_POOL_LEN];
        let mut ctrl = ByteStream::new(ctrl.clone());
        let mut code = ByteStream::new(code.clone());
        for n in parts {
            let result = tbytes_determine_rle_type(
                &mut loader,
                &mut cache,
                *n,
                &mut buffer,
                &mut ctrl,
                &mut code,
            );
            assert_eq!(result, Ok(()));
        }
        let runs = (loader.mem_copy_length, loader.mem_set_length, loader.mem_set_value);
        (cache.data.clone(), cache.position(), runs, ctrl.position(), code.position())
    };
    let whole = decode(&[11]);
    assert_eq!(whole.0, vec![11, 12, 13, 9, 9, 9, 10]);
    assert_eq!(whole.1, 11);
    for a in 0..12 {
        assert_eq!(decode(&[a, 11 - a]), whole);
    }
}
