use irmin::collections::{NameMap, NameSet};
use irmin::files::FileContent;
use irmin::game_installer::api::DownloadInfo;
use irmin::game_installer::asset_filter::{
    extract_blacklist_filename, filter_patch_assets_for_removed_features, is_filtered_asset,
    FilterCache, FilterRecords, LangFile,
};
use irmin::game_installer::error::SophonError;
use irmin::game_installer::file_hash::{
    is_file_already_patched, verify_chunk_md5, verify_file_hash,
};
use irmin::game_installer::names::{validate_asset_name, validate_patch_name};
use irmin::game_installer::patch_manifest::{
    SophonPatchAssetChunk, SophonPatchAssetInfo, SophonPatchAssetProperty, SophonPatchProto,
    SophonUnusedAssetInfo, SophonUnusedAssetProperty,
};
use irmin::game_installer::preinstall::{
    begin_preinstall_download, check_status, finish_preinstall_download, initial_workers,
    next_patch_file, preinstall_base, preinstall_manifests, scaled_workers, total_patch_bytes,
    PatchStream, PreinstallState,
};
use irmin::game_installer::preinstall_apply::{
    apply_action, apply_copy_over, apply_hdiff_patch, apply_hdiff_patch_from_files,
    blank_original_name, check_installed_version, copy_output_name, find_download_over,
    first_apply_step, has_hdiff_magic, patch_output_name, take_files_of_parts, ApplyAccount,
    ApplyAction, DownloadOverContext, OriginalFile, BLANK_FILE_MD5, PATCHING_CHUNK_DIR,
};
use irmin::game_installer::preinstall_plan::{
    build_preinstall_plan, DiffDownloads, MainManifest, PatchAssetInfo, PatchChunkInfo,
    PatchMethod, PatchResult,
};
use irmin::proto_parse::{SophonManifestAssetProperty, SophonManifestProto};

fn no_records() -> FilterRecords {
    FilterRecords {
        game_dir: "/games/game".to_string(),
        has_nap_dir: false,
        has_hkrpg_dir: false,
        has_hk4e_dir: false,
        kdel_resource: None,
        download_blacklist: None,
        lang_files: vec![],
    }
}

#[test]
fn hdiff_magic_detection() {
    assert!(has_hdiff_magic(&b"HDIFF13".to_vec()));
    assert!(!has_hdiff_magic(&b"NORMAL".to_vec()));
}

#[test]
fn preinstall_state_paths() {
    let state_path = PreinstallState::state_file_path("5.0.0");
    let marker_path = PreinstallState::marker_file_path("5.0.0");
    assert!(state_path.contains(".sophon_preinstall_5.0.0.json"));
    assert!(marker_path.contains(".sophon_preinstall_5.0.0"));
    assert!(!marker_path.contains(".json"));
}

#[test]
fn patching_chunk_dir_path() {
    assert!(PATCHING_CHUNK_DIR.contains("patching"));
    assert!(PATCHING_CHUNK_DIR.contains("chunk"));
}

#[test]
fn verify_chunk_md5_correct() {
    let data = b"hello world";
    let md5_hex = hex::encode(fast_md5::digest(data));
    let content: Vec<u8> = (data).to_vec();
    let file = Some(&content);
    assert!(verify_chunk_md5(file, &md5_hex));
}

#[test]
fn verify_chunk_md5_wrong() {
    let content: Vec<u8> = (b"hello world").to_vec();
    let file = Some(&content);
    assert!(!verify_chunk_md5(file, "wrong_md5_hash_here"));
}

#[test]
fn verify_chunk_md5_missing_file() {
    let file = None;
    assert!(!verify_chunk_md5(file, "any_hash"));
}

#[test]
fn verify_file_hash_md5_uppercase_expected() {
    let data = b"hello world";
    let md5_hex_lower = hex::encode(fast_md5::digest(data));
    let content: Vec<u8> = (data).to_vec();
    let file = Some(&content);
    assert!(verify_file_hash(file, &md5_hex_lower.to_uppercase()));
}

#[test]
fn verify_file_hash_xxh64_uppercase_expected() {
    let data = b"hello world";
    let content: Vec<u8> = (data).to_vec();
    let file = Some(&content);
    let mut hasher = xxhash_rust::xxh64::Xxh64::new(0);
    hasher.update(data);
    let xxh64_lower = format!("{:016x}", hasher.digest());
    assert!(verify_file_hash(file, &xxh64_lower.to_uppercase()));
}

#[test]
fn verify_file_hash_empty_returns_true() {
    let content: Vec<u8> = (b"some data").to_vec();
    let file = Some(&content);
    assert!(verify_file_hash(file, ""));
}

#[test]
fn verify_file_hash_whitespace_only_returns_false() {
    let content: Vec<u8> = (b"some data").to_vec();
    let file = Some(&content);
    assert!(!verify_file_hash(file, "   "));
    assert!(!verify_file_hash(file, "\t"));
    assert!(!verify_file_hash(file, "\n"));
}

#[test]
fn verify_file_hash_unknown_length_returns_false() {
    let content: Vec<u8> = (b"some data").to_vec();
    let file = Some(&content);
    assert!(!verify_file_hash(file, "short"));
    assert!(!verify_file_hash(
        file,
        "1234567890abcdef1234567890abcdef1234567890abcdef"
    ));
}

#[test]
fn verify_file_hash_missing_file_returns_false() {
    let file = None;
    assert!(!verify_file_hash(file, "0123456789abcdef0123456789abcdef"));
    assert!(!verify_file_hash(file, "0123456789abcdef"));
}

/// Lowercase MD5 hash must be accepted (verify_file_hash normalizes to
/// lowercase).
#[test]
fn verify_file_hash_md5_lowercase_expected() {
    let data = b"hello world";
    let md5_lower = hex::encode(fast_md5::digest(data));
    let content: Vec<u8> = (data).to_vec();
    let file = Some(&content);
    assert!(verify_file_hash(file, &md5_lower));
}

/// A real MD5 mismatch must return false (verify_file_hash dispatcher).
#[test]
fn verify_file_hash_md5_wrong_hash_returns_false() {
    let content: Vec<u8> = (b"hello world").to_vec();
    let file = Some(&content);
    // MD5 of "hello world"
    assert!(!verify_file_hash(file, "00000000000000000000000000000000"));
}

/// Lowercase XXH64 hash must be accepted (verify_file_hash normalizes to
/// lowercase).
#[test]
fn verify_file_hash_xxh64_lowercase_expected() {
    let data = b"hello world";
    let mut hasher = xxhash_rust::xxh64::Xxh64::new(0);
    hasher.update(data);
    let xxh64_lower = format!("{:016x}", hasher.digest());
    let content: Vec<u8> = (data).to_vec();
    let file = Some(&content);
    assert!(verify_file_hash(file, &xxh64_lower));
}

/// A real XXH64 mismatch must return false (verify_file_hash dispatcher).
#[test]
fn verify_file_hash_xxh64_wrong_hash_returns_false() {
    let content: Vec<u8> = (b"hello world").to_vec();
    let file = Some(&content);
    // All-zero string is not a valid XXH64.
    assert!(!verify_file_hash(file, "0000000000000000"));
}

fn size_of(file: Option<&Vec<u8>>) -> Option<u64> {
    file.map(|content| content.len() as u64)
}

#[test]
fn is_file_already_patched_size_mismatch() {
    let content: Vec<u8> = (b"short").to_vec();
    let file = Some(&content);
    assert!(!is_file_already_patched(size_of(file), file, 9999, "any_hash"));
}

#[test]
fn is_file_already_patched_md5_mismatch() {
    let data = b"hello world";
    let content: Vec<u8> = (data).to_vec();
    let file = Some(&content);
    assert!(!is_file_already_patched(
        size_of(file),
        file,
        data.len() as u64,
        "wrong_hash"
    ));
}

#[test]
fn is_file_already_patched_valid() {
    let data = b"hello world";
    let md5_hex = hex::encode(fast_md5::digest(data));
    let content: Vec<u8> = (data).to_vec();
    let file = Some(&content);
    assert!(is_file_already_patched(size_of(file), file, data.len() as u64, &md5_hex));
}

#[test]
fn is_file_already_patched_missing() {
    let file = None;
    assert!(!is_file_already_patched(size_of(file), file, 100, "any_hash"));
}

#[test]
fn is_file_already_patched_returns_false_when_file_missing() {
    let file = None;

    let result = is_file_already_patched(size_of(file), file, 0, "d41d8cd98f00b204e9800998ecf8427e");

    assert!(!result);
}

#[test]
fn is_file_already_patched_returns_false_when_size_mismatch() {
    // Size check must short-circuit before hashing.
    let data = b"short";
    let content: Vec<u8> = (data).to_vec();
    let file = Some(&content);
    let actual_size = data.len() as u64;

    let result = is_file_already_patched(
        size_of(file),
        file,
        actual_size + 9_999,
        "00000000000000000000000000000000",
    );

    assert!(!result);
}

#[test]
fn is_file_already_patched_returns_true_when_size_and_md5_match() {
    // Happy path: both size and MD5 match on the same file handle.
    let data = b"hello world";
    let expected_md5 = hex::encode(fast_md5::digest(data));
    let content: Vec<u8> = (data).to_vec();
    let file = Some(&content);

    let result = is_file_already_patched(size_of(file), file, data.len() as u64, &expected_md5);

    assert!(result);
}

#[test]
fn is_file_already_patched_returns_false_when_only_md5_mismatch() {
    // Return false when the MD5 computed from the file handle does not match.
    let data = b"hello world";
    let content: Vec<u8> = (data).to_vec();
    let file = Some(&content);

    let result =
        is_file_already_patched(size_of(file), file, data.len() as u64, "00000000000000000000000000000000");

    assert!(!result);
}

/// Without a stated hash the size alone decides, even where a file cannot be read.
#[test]
fn unread_files_go_by_their_size_without_a_hash() {
    assert!(is_file_already_patched(Some(5), None, 5, ""));
    assert!(!is_file_already_patched(Some(4), None, 5, ""));
    assert!(!is_file_already_patched(None, None, 5, ""));
    assert!(!is_file_already_patched(
        Some(0),
        None,
        0,
        "d41d8cd98f00b204e9800998ecf8427e"
    ));
}

/// Verifies the BufReader-based incremental MD5 loop produces correct
/// digests for files larger than the 256KB internal buffer.
#[test]
fn verify_chunk_md5_large_file_multi_buffer() {
    // 512 KiB of patterned data (spans two 256KB buffers)
    let data: Vec<u8> = (0..524288u32)
        .map(|i| (i.wrapping_mul(7) ^ (i >> 3)) as u8)
        .collect();
    let md5_hex = hex::encode(fast_md5::digest(&data));
    let content: Vec<u8> = (&data).to_vec();
    let file = Some(&content);

    assert!(
        verify_chunk_md5(file, &md5_hex),
        "multi-buffer MD5 should match single-shot digest"
    );
}

#[test]
fn validate_asset_path_rejects_dotdot() {
    let result = validate_asset_name("../../../etc/passwd");
    assert!(result.is_err());
    let err = result.unwrap_err();
    assert!(matches!(err, SophonError::PathTraversal(_)));
}

#[test]
fn validate_asset_path_rejects_absolute() {
    let result = validate_asset_name("/etc/passwd");
    assert!(result.is_err());
    assert!(matches!(result.unwrap_err(), SophonError::PathTraversal(_)));
}

#[test]
fn validate_asset_path_rejects_backslash_prefix() {
    let result = validate_asset_name("\\Windows\\System32");
    assert!(result.is_err());
    assert!(matches!(result.unwrap_err(), SophonError::PathTraversal(_)));
}

#[test]
fn validate_asset_path_accepts_normal_relative() {
    let result = validate_asset_name("GameData/Data.pak");
    assert!(result.is_ok());
}

#[test]
fn validate_asset_path_accepts_nested_relative() {
    let result = validate_asset_name("a/b/c/file.pkg");
    assert!(result.is_ok());
}

#[test]
fn validate_asset_path_rejects_windows_drive_letter() {
    let result = validate_asset_name("C:/Windows/System32");
    assert!(result.is_err());
    assert!(matches!(result.unwrap_err(), SophonError::PathTraversal(_)));
}

#[test]
fn validate_patch_name_rejects_empty() {
    let result = validate_patch_name("");
    assert!(result.is_err());
    assert!(matches!(
        result.unwrap_err(),
        SophonError::InvalidAssetName(_)
    ));
}

#[test]
fn validate_patch_name_rejects_null_byte() {
    let result = validate_patch_name("file\0.txt");
    assert!(result.is_err());
    assert!(matches!(
        result.unwrap_err(),
        SophonError::InvalidAssetName(_)
    ));
}

#[test]
fn validate_patch_name_rejects_dotdot() {
    let result = validate_patch_name("../../etc/passwd");
    assert!(result.is_err());
    assert!(matches!(result.unwrap_err(), SophonError::PathTraversal(_)));
}

#[test]
fn validate_patch_name_rejects_drive_letter() {
    let result = validate_patch_name("C:/path/to/chunk.bin");
    assert!(result.is_err());
    assert!(matches!(result.unwrap_err(), SophonError::PathTraversal(_)));
}

#[test]
fn validate_patch_name_accepts_valid() {
    let result = validate_patch_name("chunk_001.bin");
    assert!(result.is_ok());
}

#[test]
fn validate_patch_name_rejects_relative_parent_component() {
    // Leading `..` must be rejected as traversal (not InvalidAssetName).
    let name = "../etc/passwd";
    let result = validate_patch_name(name);
    assert!(result.is_err());
    assert!(matches!(result.unwrap_err(), SophonError::PathTraversal(_)));
}

#[test]
fn validate_patch_name_rejects_parent_component_in_middle() {
    // `..` as a middle directory component must be rejected as traversal.
    let name = "path/../file";
    let result = validate_patch_name(name);
    assert!(result.is_err());
    assert!(matches!(result.unwrap_err(), SophonError::PathTraversal(_)));
}

#[test]
fn validate_patch_name_accepts_consecutive_dots_in_filename() {
    // Consecutive dots within a single filename component are not path traversal.
    assert!(validate_patch_name("foo..bar").is_ok());
}

#[test]
fn validate_patch_name_accepts_version_like_name() {
    // Version-like names with consecutive dots are legitimate patch filenames.
    assert!(validate_patch_name("2.0..hotfix.pak").is_ok());
}

#[test]
fn validate_patch_name_rejects_dot_prefix() {
    // Reject ./ and .\\ prefixes for consistency with validate_asset_name
    assert!(validate_patch_name("./foo").is_err());
    assert!(validate_patch_name(".\\foo").is_err());
    assert!(validate_patch_name("./foo/bar").is_err());
    assert!(validate_patch_name(".\\foo\\bar").is_err());
    // Consecutive dots in a filename are allowed.
    assert!(validate_patch_name("foo..bar").is_ok());
}

#[test]
fn filter_patch_assets_skips_filtered_download_over() {
    let mut assets = vec![
        PatchAssetInfo {
            target_file_path: "game_data.bin".to_string(),
            target_file_size: 100,
            target_file_hash: "h1".to_string(),
            patch_method: PatchMethod::DownloadOver,
            patch_name: String::new(),
            patch_hash: String::new(),
            patch_offset: 0,
            patch_size: 0,
            patch_chunk_length: 0,
            original_file_path: None,
            original_file_hash: None,
            original_file_size: None,
            matching_field: "cutscenes".to_string(),
        },
        PatchAssetInfo {
            target_file_path: "core_data.bin".to_string(),
            target_file_size: 200,
            target_file_hash: "h2".to_string(),
            patch_method: PatchMethod::Patch,
            patch_name: "chunk_0".to_string(),
            patch_hash: "ph".to_string(),
            patch_offset: 0,
            patch_size: 200,
            patch_chunk_length: 200,
            original_file_path: Some("core_data_old.bin".to_string()),
            original_file_hash: Some("oh".to_string()),
            original_file_size: Some(180),
            matching_field: "cutscenes".to_string(),
        },
        PatchAssetInfo {
            target_file_path: "main_game.bin".to_string(),
            target_file_size: 300,
            target_file_hash: "h3".to_string(),
            patch_method: PatchMethod::CopyOver,
            patch_name: "chunk_1".to_string(),
            patch_hash: "ph2".to_string(),
            patch_offset: 0,
            patch_size: 300,
            patch_chunk_length: 300,
            original_file_path: None,
            original_file_hash: None,
            original_file_size: None,
            matching_field: "game".to_string(),
        },
    ];

    let cache = FilterCache::new(&FilterRecords {
        has_nap_dir: true,
        kdel_resource: Some("cutscenes".to_string()),
        ..no_records()
    });
    filter_patch_assets_for_removed_features(&cache, &mut assets);
    assert_eq!(assets.len(), 3);
    assert_eq!(assets[0].patch_method, PatchMethod::Skip);
    assert_eq!(assets[1].patch_method, PatchMethod::Skip);
    assert_eq!(assets[2].patch_method, PatchMethod::CopyOver);
}

#[test]
fn filter_patch_assets_no_filter_when_no_kdel() {
    let mut assets = vec![PatchAssetInfo {
        target_file_path: "data.bin".to_string(),
        target_file_size: 100,
        target_file_hash: "h".to_string(),
        patch_method: PatchMethod::DownloadOver,
        patch_name: String::new(),
        patch_hash: String::new(),
        patch_offset: 0,
        patch_size: 0,
        patch_chunk_length: 0,
        original_file_path: None,
        original_file_hash: None,
        original_file_size: None,
        matching_field: "cutscenes".to_string(),
    }];

    let cache = FilterCache::new(&no_records());
    filter_patch_assets_for_removed_features(&cache, &mut assets);
    assert_eq!(assets.len(), 1);
    assert_eq!(assets[0].patch_method, PatchMethod::DownloadOver);
}

#[test]
fn apply_copy_over_writes_file() {
    let data = b"new file content";
    let md5_hex = hex::encode(fast_md5::digest(data));
    let chunk = data.to_vec();

    let asset = PatchAssetInfo {
        target_file_path: "GameData/output.bin".to_string(),
        target_file_size: data.len() as u64,
        target_file_hash: md5_hex,
        patch_method: PatchMethod::CopyOver,
        patch_name: "patch_0".to_string(),
        patch_hash: String::new(),
        patch_offset: 0,
        patch_size: data.len() as u64,
        patch_chunk_length: data.len() as u64,
        original_file_path: None,
        original_file_hash: None,
        original_file_size: None,
        matching_field: "game".to_string(),
    };

    let written = apply_copy_over(&asset, &FileContent::Bytes(chunk)).unwrap();

    assert_eq!(written, data);
}

#[test]
fn apply_copy_over_with_offset_reads_subrange() {
    let full_data = b"AAAA_target_content_BBBB";
    let chunk = full_data.to_vec();

    let target_data = &full_data[5..21];
    let md5_hex = hex::encode(fast_md5::digest(target_data));

    let asset = PatchAssetInfo {
        target_file_path: "GameData/sliced.bin".to_string(),
        target_file_size: target_data.len() as u64,
        target_file_hash: md5_hex,
        patch_method: PatchMethod::CopyOver,
        patch_name: "patch_1".to_string(),
        patch_hash: String::new(),
        patch_offset: 5,
        patch_size: 16,
        patch_chunk_length: 16,
        original_file_path: None,
        original_file_hash: None,
        original_file_size: None,
        matching_field: "game".to_string(),
    };

    let written = apply_copy_over(&asset, &FileContent::Bytes(chunk)).unwrap();

    assert_eq!(written, target_data);
}

#[test]
fn apply_copy_over_missing_chunk_returns_error() {
    let asset = PatchAssetInfo {
        target_file_path: "GameData/missing.bin".to_string(),
        target_file_size: 100,
        target_file_hash: "h".to_string(),
        patch_method: PatchMethod::CopyOver,
        patch_name: "nonexistent_chunk".to_string(),
        patch_hash: String::new(),
        patch_offset: 0,
        patch_size: 100,
        patch_chunk_length: 100,
        original_file_path: None,
        original_file_hash: None,
        original_file_size: None,
        matching_field: "game".to_string(),
    };

    let result = apply_copy_over(&asset, &FileContent::Missing);
    assert!(result.is_err());
    assert!(matches!(
        result.unwrap_err(),
        SophonError::PatchChunkNotFound(_)
    ));
}

#[test]
fn apply_copy_over_small_chunk_below_magic_len() {
    let data = b"ab";
    let md5_hex = hex::encode(fast_md5::digest(data));
    let chunk = data.to_vec();

    let asset = PatchAssetInfo {
        target_file_path: "GameData/small.bin".to_string(),
        target_file_size: data.len() as u64,
        target_file_hash: md5_hex,
        patch_method: PatchMethod::CopyOver,
        patch_name: "small_chunk".to_string(),
        patch_hash: String::new(),
        patch_offset: 0,
        patch_size: data.len() as u64,
        patch_chunk_length: data.len() as u64,
        original_file_path: None,
        original_file_hash: None,
        original_file_size: None,
        matching_field: "game".to_string(),
    };

    let written = apply_copy_over(&asset, &FileContent::Bytes(chunk)).unwrap();

    assert_eq!(written, data);
}

#[test]
fn apply_copy_over_exact_magic_len_non_hdiff() {
    let data = b"ABCDE";
    assert_eq!(data.len(), 5);
    assert!(!has_hdiff_magic(&data.to_vec()));
    let md5_hex = hex::encode(fast_md5::digest(data));
    let chunk = data.to_vec();

    let asset = PatchAssetInfo {
        target_file_path: "GameData/exact.bin".to_string(),
        target_file_size: data.len() as u64,
        target_file_hash: md5_hex,
        patch_method: PatchMethod::CopyOver,
        patch_name: "exact_chunk".to_string(),
        patch_hash: String::new(),
        patch_offset: 0,
        patch_size: data.len() as u64,
        patch_chunk_length: data.len() as u64,
        original_file_path: None,
        original_file_hash: None,
        original_file_size: None,
        matching_field: "game".to_string(),
    };

    let written = apply_copy_over(&asset, &FileContent::Bytes(chunk)).unwrap();

    assert_eq!(written, data);
}

#[test]
fn apply_copy_over_with_offset_non_hdiff_seeks_back() {
    let full_data = b"__PREFIX__HelloHDIFFWorld__SUFFIX__";
    let chunk = full_data.to_vec();

    let target_data = &full_data[10..25];
    assert!(target_data.starts_with(b"HelloHDIFF"));
    let md5_hex = hex::encode(fast_md5::digest(target_data));

    let asset = PatchAssetInfo {
        target_file_path: "GameData/offset.bin".to_string(),
        target_file_size: target_data.len() as u64,
        target_file_hash: md5_hex,
        patch_method: PatchMethod::CopyOver,
        patch_name: "offset_chunk".to_string(),
        patch_hash: String::new(),
        patch_offset: 10,
        patch_size: 15,
        patch_chunk_length: 15,
        original_file_path: None,
        original_file_hash: None,
        original_file_size: None,
        matching_field: "game".to_string(),
    };

    let written = apply_copy_over(&asset, &FileContent::Bytes(chunk)).unwrap();

    assert_eq!(written, target_data);
}

#[test]
fn apply_copy_over_detects_hdiff_magic() {
    let hdiff_data = b"HDIFF13patchpayload";
    let chunk = hdiff_data.to_vec();

    let asset = PatchAssetInfo {
        target_file_path: "GameData/hdiff.bin".to_string(),
        target_file_size: 0,
        target_file_hash: String::new(),
        patch_method: PatchMethod::CopyOver,
        patch_name: "patch_hdiff".to_string(),
        patch_hash: String::new(),
        patch_offset: 0,
        patch_size: hdiff_data.len() as u64,
        patch_chunk_length: hdiff_data.len() as u64,
        original_file_path: None,
        original_file_hash: None,
        original_file_size: None,
        matching_field: "game".to_string(),
    };

    let result = apply_copy_over(&asset, &FileContent::Bytes(chunk));
    assert!(result.is_err());
    let err = result.unwrap_err();
    assert!(
        matches!(err, SophonError::HDiffPatchFailed { .. }),
        "expected HDiffPatchFailed, got: {err:?}"
    );
}

#[test]
fn apply_copy_over_cleans_up_diff_temp_on_failure() {
    // Chunk with HDIFF magic but invalid data.
    let hdiff_data = b"HDIFFinvalid_data_that_cannot_be_patched";
    let chunk = hdiff_data.to_vec();

    let asset = PatchAssetInfo {
        target_file_path: "GameData/hdiff_fail.bin".to_string(),
        target_file_size: 0,
        target_file_hash: String::new(),
        patch_method: PatchMethod::CopyOver,
        patch_name: "patch_hdiff_fail".to_string(),
        patch_hash: String::new(),
        patch_offset: 0,
        patch_size: hdiff_data.len() as u64,
        patch_chunk_length: hdiff_data.len() as u64,
        original_file_path: None,
        original_file_hash: None,
        original_file_size: None,
        matching_field: "game".to_string(),
    };

    let result = apply_copy_over(&asset, &FileContent::Bytes(chunk));

    // Should fail because the HDiff data is invalid.
    assert!(result.is_err());
}

#[test]
fn apply_hdiff_patch_size_mismatch_returns_error() {
    // Original file with the wrong size.
    let content = b"short data that has wrong size".to_vec();
    let actual_size = content.len() as u64;
    let original = Some(OriginalFile {
        size: Ok(actual_size),
        content: FileContent::Bytes(content),
    });

    let chunk = b"dummy chunk data".to_vec();

    let asset = PatchAssetInfo {
        target_file_path: "original.bin".to_string(),
        target_file_size: 100,
        target_file_hash: "target_hash".to_string(),
        patch_method: PatchMethod::Patch,
        patch_name: "patch_chunk.bin".to_string(),
        patch_hash: String::new(),
        patch_offset: 0,
        patch_size: 20,
        patch_chunk_length: 20,
        original_file_path: Some("original.bin".to_string()),
        original_file_hash: Some("original_hash".to_string()),
        original_file_size: Some(999), // Expected size is 999, but actual is different
        matching_field: "game".to_string(),
    };

    let cache = FilterCache::new(&no_records());
    let result = apply_hdiff_patch(&cache, &asset, original, "original", &FileContent::Bytes(chunk));

    assert!(result.is_err());
    let err = result.unwrap_err();
    assert!(
        matches!(err, SophonError::OriginalFileMissing(_)),
        "Expected OriginalFileMissing, got: {err:?}"
    );
    let err_str = err.message();
    assert!(
        err_str.contains("Size mismatch"),
        "Error should mention 'Size mismatch': {err_str}"
    );
    // Error message includes expected and actual sizes.
    assert!(
        err_str.contains("999") && err_str.contains(&actual_size.to_string()),
        "Error should include expected and actual sizes: {err_str}"
    );
}

#[test]
fn apply_hdiff_patch_blank_original_creates_diff_ref() {
    let chunk = b"dummy chunk data".to_vec();

    // Original file does not exist but hash indicates blank file.
    let asset = PatchAssetInfo {
        target_file_path: "new_file.bin".to_string(),
        target_file_size: 0,
        target_file_hash: String::new(),
        patch_method: PatchMethod::Patch,
        patch_name: "patch_chunk.bin".to_string(),
        patch_hash: String::new(),
        patch_offset: 0,
        patch_size: 20,
        patch_chunk_length: 20,
        original_file_path: Some("nonexistent.bin".to_string()),
        original_file_hash: Some(BLANK_FILE_MD5.to_string()),
        original_file_size: Some(0),
        matching_field: "game".to_string(),
    };

    let cache = FilterCache::new(&no_records());
    let result = apply_hdiff_patch(&cache, &asset, None, "original", &FileContent::Bytes(chunk));

    // Should not return OriginalFileMissing; creates blank diff_ref and proceeds.
    assert!(
        !matches!(result, Err(SophonError::OriginalFileMissing(_))),
        "Should not return OriginalFileMissing for blank original: {:?}",
        result
    );
}

#[test]
fn apply_hdiff_patch_blank_original_by_size() {
    let chunk = b"dummy chunk data".to_vec();

    // Original file does not exist and original_file_size is 0.
    let asset = PatchAssetInfo {
        target_file_path: "another_new_file.bin".to_string(),
        target_file_size: 0,
        target_file_hash: String::new(),
        patch_method: PatchMethod::Patch,
        patch_name: "patch_chunk2.bin".to_string(),
        patch_hash: String::new(),
        patch_offset: 0,
        patch_size: 20,
        patch_chunk_length: 20,
        original_file_path: Some("nonexistent2.bin".to_string()),
        original_file_hash: None,
        original_file_size: Some(0),
        matching_field: "game".to_string(),
    };

    let cache = FilterCache::new(&no_records());
    let result = apply_hdiff_patch(&cache, &asset, None, "original", &FileContent::Bytes(chunk));

    // Should not return OriginalFileMissing; creates blank diff_ref and proceeds.
    assert!(
        !matches!(result, Err(SophonError::OriginalFileMissing(_))),
        "Should not return OriginalFileMissing for blank original (size=0): {:?}",
        result
    );
}

/// BLANK_FILE_MD5 triggers blank-file handling even when
/// original_file_size is non-zero. Hash takes precedence over size.
#[test]
fn apply_hdiff_patch_blank_original_by_hash_ignores_size() {
    let chunk = b"dummy chunk data".to_vec();

    // Original file does not exist; hash indicates blank but size is inconsistent.
    let asset = PatchAssetInfo {
        target_file_path: "new_file2.bin".to_string(),
        target_file_size: 0,
        target_file_hash: String::new(),
        patch_method: PatchMethod::Patch,
        patch_name: "patch_chunk3.bin".to_string(),
        patch_hash: String::new(),
        patch_offset: 0,
        patch_size: 20,
        patch_chunk_length: 20,
        original_file_path: Some("nonexistent3.bin".to_string()),
        original_file_hash: Some(BLANK_FILE_MD5.to_string()),
        original_file_size: Some(999), // Inconsistent: hash says blank, size says 999
        matching_field: "game".to_string(),
    };

    let cache = FilterCache::new(&no_records());
    let result = apply_hdiff_patch(&cache, &asset, None, "original", &FileContent::Bytes(chunk));

    // Should not return OriginalFileMissing when hash indicates blank.
    assert!(
        !matches!(result, Err(SophonError::OriginalFileMissing(_))),
        "Should not return OriginalFileMissing when hash indicates blank: {:?}",
        result
    );
}

#[test]
fn apply_hdiff_patch_from_files_blank_diff_ref_hash_matches() {
    let chunk = b"mock hdiff data".to_vec();

    let asset = PatchAssetInfo {
        target_file_path: "GameData/output.bin".to_string(),
        target_file_size: 0,
        target_file_hash: String::new(),
        patch_method: PatchMethod::Patch,
        patch_name: "blank_verify_patch".to_string(),
        patch_hash: String::new(),
        patch_offset: 0,
        patch_size: 20,
        patch_chunk_length: 20,
        original_file_path: None,
        original_file_hash: None,
        original_file_size: None,
        matching_field: "game".to_string(),
    };

    // Invalid diff data will fail, but the blank diff_ref hash verification
    // should pass (not fail with hash mismatch) before reaching the hdiff step.
    let result = apply_hdiff_patch_from_files(&asset, &chunk);

    // Did not fail on the blank diff_ref hash verification step.
    if let Err(SophonError::HDiffPatchFailed { error, .. }) = &result {
        assert!(
            !error.contains("hash mismatch"),
            "Should not fail on blank diff_ref hash mismatch. Error: {error}"
        );
    }

    // BLANK_FILE_MD5 matches the hash of an empty file.
    let empty: Vec<u8> = vec![];
    assert!(
        verify_file_hash(Some(&empty), BLANK_FILE_MD5),
        "BLANK_FILE_MD5 should match the hash of an empty file"
    );
}

#[test]
fn extract_blacklist_filename_valid() {
    let line = r#"  {"fileName":"Audio/Chinese/abc.pak","fileSize":"1234"}"#;
    let result = extract_blacklist_filename(line);
    assert_eq!(result, Some("Audio/Chinese/abc.pak".to_string()));
}

#[test]
fn extract_blacklist_filename_with_backslashes() {
    let line = r#"  {"fileName":"Audio\Chinese\abc.pak","fileSize":"1234"}"#;
    let result = extract_blacklist_filename(line);
    assert_eq!(result, Some("Audio/Chinese/abc.pak".to_string()));
}

#[test]
fn extract_blacklist_filename_no_match() {
    let line = r#"  {"otherField":"value"}"#;
    let result = extract_blacklist_filename(line);
    assert_eq!(result, None);
}

#[test]
fn extract_blacklist_filename_empty() {
    let result = extract_blacklist_filename("");
    assert_eq!(result, None);
}

#[test]
fn is_filtered_asset_nap_kdel() {
    let cache = FilterCache::new(&FilterRecords {
        has_nap_dir: true,
        kdel_resource: Some("cutscenes|design".to_string()),
        ..no_records()
    });

    let asset = PatchAssetInfo {
        target_file_path: "data.bin".to_string(),
        target_file_size: 100,
        target_file_hash: "h".to_string(),
        patch_method: PatchMethod::Patch,
        patch_name: "c".to_string(),
        patch_hash: "p".to_string(),
        patch_offset: 0,
        patch_size: 100,
        patch_chunk_length: 100,
        original_file_path: None,
        original_file_hash: None,
        original_file_size: None,
        matching_field: "cutscenes".to_string(),
    };
    assert!(is_filtered_asset(&cache, &asset));

    let asset_game = PatchAssetInfo {
        target_file_path: "data.bin".to_string(),
        target_file_size: 100,
        target_file_hash: "h".to_string(),
        patch_method: PatchMethod::Patch,
        patch_name: "c".to_string(),
        patch_hash: "p".to_string(),
        patch_offset: 0,
        patch_size: 100,
        patch_chunk_length: 100,
        original_file_path: None,
        original_file_hash: None,
        original_file_size: None,
        matching_field: "game".to_string(),
    };
    assert!(!is_filtered_asset(&cache, &asset_game));
}

#[test]
fn is_filtered_asset_hkrpg_blacklist() {
    let cache = FilterCache::new(&FilterRecords {
        has_hkrpg_dir: true,
        download_blacklist: Some(r#"{"fileName":"Audio/Korean/vo_kr.pak","fileSize":"1000"}"#.to_string()),
        ..no_records()
    });

    let asset = PatchAssetInfo {
        target_file_path: "Audio/Korean/vo_kr.pak".to_string(),
        target_file_size: 100,
        target_file_hash: "h".to_string(),
        patch_method: PatchMethod::DownloadOver,
        patch_name: String::new(),
        patch_hash: String::new(),
        patch_offset: 0,
        patch_size: 0,
        patch_chunk_length: 0,
        original_file_path: None,
        original_file_hash: None,
        original_file_size: None,
        matching_field: "ko-kr".to_string(),
    };
    assert!(is_filtered_asset(&cache, &asset));

    let asset_en = PatchAssetInfo {
        target_file_path: "Audio/English/vo_en.pak".to_string(),
        target_file_size: 100,
        target_file_hash: "h".to_string(),
        patch_method: PatchMethod::DownloadOver,
        patch_name: String::new(),
        patch_hash: String::new(),
        patch_offset: 0,
        patch_size: 0,
        patch_chunk_length: 0,
        original_file_path: None,
        original_file_hash: None,
        original_file_size: None,
        matching_field: "en-us".to_string(),
    };
    assert!(!is_filtered_asset(&cache, &asset_en));
}

#[test]
fn is_filtered_asset_hk4e_audio_lang() {
    let cache = FilterCache::new(&FilterRecords {
        has_hk4e_dir: true,
        lang_files: vec![LangFile {
            name: "audio_lang_installed".to_string(),
            content: Some("English(US)\n".to_string()),
        }],
        ..no_records()
    });

    let asset_en = PatchAssetInfo {
        target_file_path: "Audio/English(US)/vo_en.pak".to_string(),
        target_file_size: 100,
        target_file_hash: "h".to_string(),
        patch_method: PatchMethod::Patch,
        patch_name: "c".to_string(),
        patch_hash: "p".to_string(),
        patch_offset: 0,
        patch_size: 100,
        patch_chunk_length: 100,
        original_file_path: None,
        original_file_hash: None,
        original_file_size: None,
        matching_field: "en-us".to_string(),
    };
    assert!(!is_filtered_asset(&cache, &asset_en));

    let asset_jp = PatchAssetInfo {
        target_file_path: "Audio/Japanese/vo_jp.pak".to_string(),
        target_file_size: 100,
        target_file_hash: "h".to_string(),
        patch_method: PatchMethod::Patch,
        patch_name: "c".to_string(),
        patch_hash: "p".to_string(),
        patch_offset: 0,
        patch_size: 100,
        patch_chunk_length: 100,
        original_file_path: None,
        original_file_hash: None,
        original_file_size: None,
        matching_field: "ja-jp".to_string(),
    };
    assert!(is_filtered_asset(&cache, &asset_jp));
}

#[test]
fn is_filtered_asset_no_game_dir_markers() {
    let cache = FilterCache::new(&no_records());
    let asset = PatchAssetInfo {
        target_file_path: "data.bin".to_string(),
        target_file_size: 100,
        target_file_hash: "h".to_string(),
        patch_method: PatchMethod::Patch,
        patch_name: "c".to_string(),
        patch_hash: "p".to_string(),
        patch_offset: 0,
        patch_size: 100,
        patch_chunk_length: 100,
        original_file_path: None,
        original_file_hash: None,
        original_file_size: None,
        matching_field: "game".to_string(),
    };
    assert!(!is_filtered_asset(&cache, &asset));
}

fn download_info() -> DownloadInfo {
    DownloadInfo {
        encryption: 0,
        password: String::new(),
        compression: 1,
        url_prefix: "https://example.com".to_string(),
        url_suffix: "/a/b".to_string(),
    }
}

fn piece(name: &str, original: &str) -> SophonPatchAssetChunk {
    SophonPatchAssetChunk {
        patch_name: name.to_string(),
        patch_md5: "pm".to_string(),
        patch_size: 70,
        patch_offset: 5,
        patch_length: 60,
        original_file_name: original.to_string(),
        original_file_md5: "om".to_string(),
        original_file_length: 50,
    }
}

fn patched(name: &str, size: i64, infos: Vec<(&str, SophonPatchAssetChunk)>) -> SophonPatchAssetProperty {
    SophonPatchAssetProperty {
        asset_name: name.to_string(),
        asset_size: size,
        asset_hash_md5: "am".to_string(),
        asset_infos: infos
            .into_iter()
            .map(|(tag, chunk)| SophonPatchAssetInfo {
                version_tag: tag.to_string(),
                chunk: Some(chunk),
            })
            .collect(),
    }
}

fn main_asset(name: &str, kind: u32) -> SophonManifestAssetProperty {
    SophonManifestAssetProperty {
        asset_name: name.to_string(),
        asset_chunks: vec![],
        asset_type: kind,
        asset_size: 9,
        asset_hash_md5: "mm".to_string(),
    }
}

/// Files are patched, copied or downloaded by what the patch manifests say of
/// them, a patch file is fetched once, and what the next version lacks is deleted.
#[test]
fn a_preinstallation_is_planned() {
    let patches = vec![PatchResult {
        matching_field: "game".to_string(),
        patch_manifest: SophonPatchProto {
            patch_assets: vec![
                patched("patched", 100, vec![("1.0.0", piece("chunk", "old"))]),
                patched("copied", 100, vec![("1.0.0", piece("chunk", ""))]),
                patched("unpatched", 100, vec![("0.9.0", piece("other", "old"))]),
                patched("negative", -1, vec![("1.0.0", piece("chunk", "old"))]),
            ],
            unused_assets: vec![SophonUnusedAssetProperty {
                version_tag: "1.0.0".to_string(),
                asset_infos: vec![SophonUnusedAssetInfo {
                    file_names: vec!["gone".to_string(), "patched".to_string()],
                }],
            }],
        },
        diff_download: download_info(),
    }];
    let mains = vec![MainManifest {
        matching_field: "game".to_string(),
        manifest_id: "id".to_string(),
        chunk_download: download_info(),
        manifest: SophonManifestProto {
            assets: vec![
                main_asset("patched", 0),
                main_asset("brand_new", 0),
                main_asset("dir", 64),
            ],
        },
    }];
    let plan = build_preinstall_plan("2.0.0", "1.0.0", &patches, &mains).unwrap();
    let found: Vec<(&str, PatchMethod)> = plan
        .patch_assets
        .iter()
        .map(|a| (a.target_file_path.as_str(), a.patch_method))
        .collect();
    assert_eq!(
        found,
        vec![
            ("patched", PatchMethod::Patch),
            ("copied", PatchMethod::CopyOver),
            ("unpatched", PatchMethod::DownloadOver),
            ("brand_new", PatchMethod::DownloadOver),
        ]
    );
    assert_eq!(plan.patch_assets[0].original_file_path.as_deref(), Some("old"));
    assert_eq!(plan.patch_assets[0].patch_offset, 5);
    assert_eq!(plan.patch_assets[0].patch_chunk_length, 60);
    assert_eq!(plan.deleted_files, vec!["gone".to_string()]);
    assert_eq!(plan.unique_chunks.len(), 1);
    assert_eq!(plan.unique_chunks[0].patch_name, "chunk");
    assert_eq!(plan.tag, "2.0.0");
    assert_eq!(
        plan.main_manifest_ids,
        vec![("game".to_string(), "id".to_string())]
    );
    let source = plan.diff_downloads.for_field("game").unwrap();
    assert_eq!(source.url_suffix, "/a/b");
    let other = plan.diff_downloads.for_field("ja-jp").unwrap();
    assert_eq!(other.url_suffix, "/a/b");
    assert!(DiffDownloads::new().for_field("game").is_none());
    assert!(matches!(
        build_preinstall_plan("2.0.0", "1.0.0", &vec![], &mains),
        Err(SophonError::NoGameManifest)
    ));
}

#[test]
fn preinstallations_need_a_base() {
    assert!(matches!(
        preinstall_base(false, Some("1.0.0".to_string())),
        Err(SophonError::NoPreinstallAvailable)
    ));
    assert!(matches!(
        preinstall_base(true, None),
        Err(SophonError::NoInstalledVersion)
    ));
    assert_eq!(preinstall_base(true, Some("1.0.0".into())).unwrap(), "1.0.0");
    let fields: Vec<String> = ["game", "en-us", "ja-jp", "game"]
        .iter()
        .map(|s| s.to_string())
        .collect();
    let (patches, mains) = preinstall_manifests(&fields, &fields, "en").unwrap();
    assert_eq!(patches, vec![0, 1, 3]);
    assert_eq!(mains, vec![1, 3]);
    assert!(preinstall_manifests(&vec![], &fields, "en").is_err());
}

fn patch_file(name: &str, size: u64) -> PatchChunkInfo {
    PatchChunkInfo {
        patch_name: name.to_string(),
        patch_size: size,
        patch_md5: String::new(),
        matching_field: "game".to_string(),
    }
}

#[test]
fn missing_patch_files_are_fetched() {
    let chunks = vec![patch_file("a", 10), patch_file("b", 20), patch_file("c", 30)];
    assert_eq!(total_patch_bytes(&chunks), 60);
    let mut noted = NameMap::default();
    noted.insert("c".to_string(), 30);
    let mut download = begin_preinstall_download(&chunks, noted, &vec![true, false, false]);
    assert_eq!(download.total_bytes, 60);
    assert_eq!(download.resume_offset, 10);
    assert_eq!(download.queue.len(), 1);
    assert_eq!(download.queue[0].patch_name, "b");
    assert!(!download.note_fetched(&patch_file("b", 20), 2));
    assert!(download.note_fetched(&patch_file("d", 20), 2));
    assert_eq!(download.known.get("b"), Some(&20));
    assert!(next_patch_file(&patch_file("b", 1), false).is_ok());
    assert!(matches!(
        next_patch_file(&patch_file("b", 1), true),
        Err(SophonError::Cancelled)
    ));
    assert!(matches!(
        next_patch_file(&patch_file("../b", 1), false),
        Err(SophonError::PathTraversal(_))
    ));
}

#[test]
fn workers_follow_the_queue() {
    assert_eq!(initial_workers(8, 3), 3);
    assert_eq!(initial_workers(2, 3), 2);
    assert_eq!(scaled_workers(2, 8, 5), 5);
    assert_eq!(scaled_workers(2, 4, 50), 4);
    assert_eq!(scaled_workers(6, 4, 50), 6);
}

#[test]
fn wrong_requests_are_refused() {
    match check_status(404, "https://x") {
        Err(SophonError::ApiError(404, text)) => assert_eq!(text, "404 for https://x"),
        other => panic!("unexpected {other:?}"),
    }
    assert!(check_status(200, "https://x").is_ok());
    assert!(check_status(503, "https://x").is_ok());
}

#[test]
fn patch_files_come_whole() {
    let data = b"hello world".to_vec();
    let md5 = hex::encode(fast_md5::digest(&data));
    let mut stream = PatchStream::new(Some(11));
    stream.take_piece(5, "p").unwrap();
    match stream.finish("p", &md5, &data) {
        Err(SophonError::SizeMismatch { expected, actual, .. }) => {
            assert_eq!((expected, actual), (11, 5))
        }
        other => panic!("unexpected {other:?}"),
    }
    assert!(matches!(stream.take_piece(0, "p"), Err(SophonError::Io(_))));
    stream.take_piece(6, "p").unwrap();
    stream.finish("p", &md5.to_uppercase(), &data).unwrap();
    assert!(matches!(
        stream.finish("p", "00", &data),
        Err(SophonError::Md5Mismatch { .. })
    ));
    stream.finish("p", "", &data).unwrap();
    match stream.take_piece(1, "p") {
        Err(SophonError::SizeMismatch { expected, actual, item }) => {
            assert_eq!((expected, actual), (11, 12));
            assert_eq!(item, "p");
        }
        other => panic!("unexpected {other:?}"),
    }
}

#[test]
fn states_hold_what_was_fetched() {
    let plan = build_preinstall_plan(
        "2.0.0",
        "1.0.0",
        &vec![PatchResult {
            matching_field: "game".to_string(),
            patch_manifest: SophonPatchProto {
                patch_assets: vec![],
                unused_assets: vec![],
            },
            diff_download: download_info(),
        }],
        &vec![MainManifest {
            matching_field: "game".to_string(),
            manifest_id: "id".to_string(),
            chunk_download: download_info(),
            manifest: SophonManifestProto { assets: vec![] },
        }],
    )
    .unwrap();
    let mut known = NameMap::default();
    known.insert("a".to_string(), 1);
    known.insert("b".to_string(), 2);
    let state = finish_preinstall_download(plan, "nap", "en", "1.0.0".to_string(), &known);
    let expected: NameSet = ["a".to_string(), "b".to_string()].into_iter().collect();
    assert_eq!(state.downloaded_chunks, expected);
    assert_eq!(state.tag, "2.0.0");
    assert_eq!(state.installed_tag, "1.0.0");
}

fn target(path: &str, method: PatchMethod) -> PatchAssetInfo {
    PatchAssetInfo {
        target_file_path: path.to_string(),
        target_file_size: 11,
        target_file_hash: hex::encode(fast_md5::digest(b"hello world")),
        patch_method: method,
        patch_name: "chunk".to_string(),
        patch_hash: String::new(),
        patch_offset: 0,
        patch_size: 11,
        patch_chunk_length: 11,
        original_file_path: None,
        original_file_hash: None,
        original_file_size: None,
        matching_field: "game".to_string(),
    }
}

/// What was made has the hash that it has to have, so that it is not made again.
#[test]
fn made_files_are_done() {
    let content = b"hello world".to_vec();
    let asset = target("a", PatchMethod::CopyOver);
    assert_eq!(apply_action(&asset, None, None), ApplyAction::CopyOver);
    let made = apply_copy_over(&asset, &FileContent::Bytes(content)).unwrap();
    assert_eq!(
        apply_action(&asset, size_of(Some(&made)), Some(&made)),
        ApplyAction::AlreadyDone
    );
    let patch = target("a", PatchMethod::Patch);
    assert_eq!(apply_action(&patch, None, None), ApplyAction::Patch);
    let skipped = target("a", PatchMethod::Skip);
    assert_eq!(apply_action(&skipped, None, None), ApplyAction::Nothing);
}

#[test]
fn first_steps_of_an_update() {
    assert!(check_installed_version("1.0.0", "1.0.0").is_ok());
    assert!(matches!(
        check_installed_version("1.0.0", "1.1.0"),
        Err(SophonError::PreinstallStateInvalid(_))
    ));
    assert!(first_apply_step(&target("../a", PatchMethod::Patch), false).is_err());
    assert!(first_apply_step(&target("a", PatchMethod::Patch), false).is_ok());
    let asset = target("a", PatchMethod::Patch);
    assert_eq!(blank_original_name(&asset), "patching/chunk.diff_ref");
    assert_ne!(patch_output_name(&asset), copy_output_name(&asset));
    let mut account = ApplyAccount {
        applied_files: 0,
        last_report: 0,
    };
    account.pass();
    assert_eq!(account.applied_files, 1);
    assert_eq!(account.settle(1), None);
    assert_eq!(account.settle(2_000_000_000), Some(3));
}

fn unreadable() -> FileContent {
    FileContent::Unreadable("Permission denied (os error 13)".to_string())
}

/// A patch file that is there and cannot be read is an I/O error only where
/// nothing is wrong before it is opened.
#[test]
fn unreadable_patch_files_are_not_copied() {
    let mut asset = target("a", PatchMethod::CopyOver);
    match apply_copy_over(&asset, &unreadable()) {
        Err(SophonError::Io(why)) => assert_eq!(why, "Permission denied (os error 13)"),
        other => panic!("unexpected {other:?}"),
    }
    asset.target_file_path = "../a".to_string();
    assert!(!matches!(
        apply_copy_over(&asset, &unreadable()),
        Err(SophonError::Io(_)) | Ok(_)
    ));
    assert!(matches!(
        apply_copy_over(&asset, &FileContent::Missing),
        Err(SophonError::PatchChunkNotFound(_))
    ));
    asset.patch_hash = hex::encode(fast_md5::digest(b"hello world"));
    for chunk in [unreadable(), FileContent::Missing] {
        match apply_copy_over(&asset, &chunk) {
            Err(SophonError::Md5Mismatch { item, expected, .. }) => {
                assert_eq!(item, "chunk");
                assert_eq!(expected, asset.patch_hash);
            }
            other => panic!("unexpected {other:?}"),
        }
    }
    asset.patch_name = "../chunk".to_string();
    assert!(!matches!(
        apply_copy_over(&asset, &unreadable()),
        Err(SophonError::Md5Mismatch { .. }) | Ok(_)
    ));
}

const MADE: &[u8] = b"This is brand new content created from nothing!";
const MADE_FROM_NOTHING: &[u8] = b"HDIFF13&zstd\x00/\x00\x00\x00\x00\x02\x00\x00\x00/\x00 .This is brand new content created from nothing!";

/// A patch fails where the original or the patch file is there and cannot be
/// read; a missing patch file is another error.
#[test]
fn unreadable_files_are_not_patched() {
    let cache = FilterCache::new(&no_records());
    let mut asset = target("a", PatchMethod::Patch);
    asset.target_file_size = MADE.len() as u64;
    asset.target_file_hash = hex::encode(fast_md5::digest(MADE));
    let original = |content| {
        Some(OriginalFile {
            size: Ok(0),
            content,
        })
    };
    let patch = FileContent::Bytes(MADE_FROM_NOTHING.to_vec());
    let apply = |asset: &PatchAssetInfo, content, chunk: &FileContent| {
        apply_hdiff_patch(&cache, asset, original(content), "shown", chunk)
    };
    let empty = || FileContent::Bytes(vec![]);
    assert_eq!(apply(&asset, empty(), &patch).unwrap().unwrap(), MADE);
    for (content, chunk) in [(unreadable(), &patch), (empty(), &unreadable())] {
        match apply(&asset, content, chunk) {
            Err(SophonError::HDiffPatchFailed { file, error }) => {
                assert_eq!(file, "a");
                assert_eq!(error, "HDiff apply returned false");
            }
            other => panic!("unexpected {other:?}"),
        }
    }
    assert!(matches!(
        apply(&asset, unreadable(), &FileContent::Missing),
        Err(SophonError::PatchChunkNotFound(_))
    ));
    // An original that is gone by the time it is opened counts as empty.
    assert_eq!(
        apply(&asset, FileContent::Missing, &patch).unwrap().unwrap(),
        MADE
    );
    // A stated hash is not found in an original that cannot be read.
    asset.original_file_hash = Some(String::new());
    assert!(matches!(
        apply(&asset, unreadable(), &patch),
        Err(SophonError::HDiffPatchFailed { .. })
    ));
    asset.original_file_hash = Some(BLANK_FILE_MD5.to_string());
    assert!(matches!(
        apply(&asset, unreadable(), &patch),
        Err(SophonError::OriginalFileMissing(_))
    ));
    assert_eq!(apply(&asset, empty(), &patch).unwrap().unwrap(), MADE);
}

#[test]
fn whole_files_are_found_in_their_manifests() {
    let mut context = DownloadOverContext::new();
    assert!(context.fields().is_empty());
    context.insert(
        "game".to_string(),
        download_info(),
        SophonManifestProto {
            assets: vec![main_asset("b", 0)],
        },
    );
    let mut later = download_info();
    later.url_suffix = "/later".to_string();
    context.insert(
        "game".to_string(),
        later,
        SophonManifestProto {
            assets: vec![main_asset("a", 0), main_asset("b", 7), main_asset("d", 64)],
        },
    );
    assert_eq!(context.fields(), vec!["game".to_string()]);
    let b = target("b", PatchMethod::DownloadOver);
    let (source, file) = find_download_over(&context, &b).unwrap();
    assert_eq!(source.url_suffix, "/later");
    assert_eq!(file.asset_name, "b");
    assert_eq!(file.asset_type, 7);
    let c = target("c", PatchMethod::DownloadOver);
    assert!(matches!(
        find_download_over(&context, &c),
        Err(SophonError::AssemblyFailed { .. })
    ));
    let mut voice = target("b", PatchMethod::DownloadOver);
    voice.matching_field = "ja-jp".to_string();
    assert!(matches!(
        find_download_over(&context, &voice),
        Err(SophonError::NoVoiceManifest(_))
    ));
    assert!(context.part("ja-jp").is_none());
    context.insert(
        "ja-jp".to_string(),
        download_info(),
        SophonManifestProto {
            assets: vec![main_asset("v", 0)],
        },
    );
    let order = vec!["ja-jp".to_string(), "en-us".to_string(), "game".to_string()];
    let names: Vec<String> = take_files_of_parts(&context, &order)
        .into_iter()
        .map(|file| file.asset_name)
        .collect();
    assert_eq!(names, ["v", "a", "b"]);
}

#[test]
fn later_sources_replace_earlier_ones() {
    let mut downloads = DiffDownloads::new();
    let mut first = download_info();
    first.url_suffix = "/first".to_string();
    downloads.insert("game", &first);
    downloads.insert("game", &download_info());
    assert_eq!(downloads.for_field("game").unwrap().url_suffix, "/a/b");
    assert_eq!(downloads.fields(), vec!["game".to_string()]);
}
