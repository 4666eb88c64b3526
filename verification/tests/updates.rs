use irmin::game_installer::api::{is_known_vo_locale, parse_size, vo_lang_matches};
use irmin::game_installer::error::SophonError;
use irmin::game_installer::update::{
    check_update, fetch_build_sizes, fetch_diff_sizes, DiffPair, StatedSizes, UpdateInfo,
};
use irmin::proto_parse::{
    SophonManifestAssetChunk, SophonManifestAssetProperty, SophonManifestProto,
};

#[test]
fn parse_size_returns_correct_values() {
    assert_eq!(parse_size("0").unwrap(), 0);
    assert_eq!(parse_size("1024").unwrap(), 1024);
    assert_eq!(parse_size("2048").unwrap(), 2048);
    assert_eq!(parse_size("999999").unwrap(), 999999);
}

#[test]
fn sizes_that_are_no_numbers_are_refused() {
    assert_eq!(parse_size("18446744073709551615").unwrap(), u64::MAX);
    assert_eq!(parse_size("+7").unwrap(), 7);
    for text in ["", "+", "-1", "12a", "18446744073709551616", " 1"] {
        assert!(matches!(parse_size(text), Err(SophonError::ApiError(0, _))));
    }
}

#[test]
fn is_known_vo_locale_identifies_known_and_unknown() {
    assert!(is_known_vo_locale("en-us"));
    assert!(is_known_vo_locale("ja-jp"));
    assert!(is_known_vo_locale("zh-cn"));
    assert!(!is_known_vo_locale("game"));
    assert!(!is_known_vo_locale("cutscenes"));
    assert!(!is_known_vo_locale(""));
}

#[test]
fn vo_lang_matches_cases() {
    // CN matches zh-cn
    assert!(vo_lang_matches("zh-cn", "cn"));
    assert!(vo_lang_matches("zh-tw", "cn"));
    // EN matches en-us
    assert!(vo_lang_matches("en-us", "en"));
    // JP matches ja-jp
    assert!(vo_lang_matches("ja-jp", "jp"));
    // KR matches ko-kr
    assert!(vo_lang_matches("ko-kr", "kr"));
    // Wrong language doesn't match
    assert!(!vo_lang_matches("en-us", "jp"));
    assert!(!vo_lang_matches("ja-jp", "en"));
    // Case insensitive
    assert!(vo_lang_matches("EN-US", "en"));
    assert!(vo_lang_matches("zh-cn", "CN"));
    // Empty doesn't match
    assert!(!vo_lang_matches("", ""));
    assert!(!vo_lang_matches("game", "en"));
}

#[test]
fn update_info_no_update_when_tags_match() {
    let info = UpdateInfo {
        update_available: false,
        preinstall_available: false,
        preinstall_downloaded: false,
        current_tag: Some("1.0.0".into()),
        remote_tag: "1.0.0".into(),
        preinstall_tag: None,
        update_compressed_size: 0,
        update_decompressed_size: 0,
        preinstall_compressed_size: 0,
        preinstall_decompressed_size: 0,
    };
    assert!(!info.update_available);
    assert_eq!(info.current_tag.as_deref(), Some("1.0.0"));
    assert_eq!(info.current_tag.as_deref(), Some(info.remote_tag.as_str()));
}

#[test]
fn updates_are_found_by_their_tags() {
    let info = check_update(
        Some("1.0.0".into()),
        "1.0.0".into(),
        None,
        (5, 9),
        None,
        false,
    );
    assert!(!info.update_available);
    assert!(!info.preinstall_available);
    let info = check_update(
        Some("1.0.0".into()),
        "2.0.0".into(),
        None,
        (5, 9),
        None,
        false,
    );
    assert!(info.update_available);
    assert_eq!(info.update_compressed_size, 5);
    assert_eq!(info.update_decompressed_size, 9);
    let info = check_update(
        Some("1.0.0".into()),
        "1.0.0".into(),
        Some("2.0.0".into()),
        (0, 0),
        Some((3, 4)),
        true,
    );
    assert!(info.preinstall_available);
    assert!(info.preinstall_downloaded);
    assert_eq!(info.preinstall_tag.as_deref(), Some("2.0.0"));
    assert_eq!(info.preinstall_compressed_size, 3);
}

fn sizes(field: &str, compressed: &str, uncompressed: &str) -> StatedSizes {
    StatedSizes {
        matching_field: field.into(),
        compressed: compressed.into(),
        uncompressed: uncompressed.into(),
    }
}

#[test]
fn sizes_of_a_build_add_up() {
    let list = vec![
        sizes("game", "10", "20"),
        sizes("en-us", "1", "2"),
        sizes("ja-jp", "100", "200"),
        sizes("extra", "5", "6"),
    ];
    assert_eq!(fetch_build_sizes(&list, "en").unwrap(), (16, 28));
    assert!(fetch_build_sizes(&vec![sizes("ja-jp", "1", "1")], "en").is_err());
    assert!(fetch_build_sizes(&vec![sizes("game", "x", "1")], "en").is_err());
    let huge = vec![
        sizes("game", "18446744073709551615", "1"),
        sizes("extra", "1", "1"),
    ];
    assert!(fetch_build_sizes(&huge, "en").is_err());
}

fn file(name: &str, md5: &str, chunk: &str, content: &str, size: u64) -> SophonManifestAssetProperty {
    SophonManifestAssetProperty {
        asset_name: name.into(),
        asset_chunks: vec![SophonManifestAssetChunk {
            chunk_name: chunk.into(),
            chunk_decompressed_hash_md5: content.into(),
            chunk_on_file_offset: 0,
            chunk_size: size,
            chunk_size_decompressed: size * 2,
            chunk_compressed_hash_xxh: 0,
            chunk_compressed_hash_md5: String::new(),
            chunk_old_offset: -1,
        }],
        asset_type: 0,
        asset_size: size * 2,
        asset_hash_md5: md5.into(),
    }
}

/// Unchanged files cost nothing, and content that the old version has is not
/// downloaded.
#[test]
fn sizes_of_an_update_leave_out_what_is_there() {
    let pair = DiffPair {
        matching_field: "game".into(),
        new: SophonManifestProto {
            assets: vec![
                file("same", "s", "c1", "h1", 10),
                file("moved", "n", "c2", "h1", 20),
                file("new", "w", "c3", "h3", 30),
            ],
        },
        old: Some(SophonManifestProto {
            assets: vec![file("same", "s", "c1", "h1", 10)],
        }),
    };
    let (compressed, _) = fetch_diff_sizes(&vec![pair], "en").unwrap();
    assert_eq!(compressed, 30);
}
