use irmin::collections::TextMap;
use irmin::game_installer::api::parse_number;
use irmin::game_installer::archive::{begin_archive, content_of};
use irmin::game_installer::error::SophonError;
use irmin::game_installer::plugin_api::{
    fetch_channel_sdks, fetch_plugins, game_id_for_code, is_directx_url, parse_listed_size,
    plugin_list_url, sdk_list_url, validation_is_empty, ChannelSdkData, GameRef, PackageData,
    PluginApiResponse, PluginPackageInfo, PluginRelease, SdkApiResponse, ValidationEntry,
};
use irmin::game_installer::plugin_install::{
    archive_name, check_entry_count, check_package, end_plugin, end_sdk, files_to_take_away,
    plugin_archive, plugin_needs_update, plugin_version_key, recorded_version, sdk_archive,
    verify_validation, write_plugin_version, ArchiveEntry, DiskFile, PackageEnd, ZipBudget,
    ZipStep, ZIP_MAX_ENTRIES, ZIP_MAX_ENTRY_BYTES,
};
use std::io::{Cursor, Write};
use zip::write::SimpleFileOptions;
use zip::ZipWriter;

fn make_validation_entry(path: &str, size: Option<u64>) -> ValidationEntry {
    ValidationEntry {
        path: path.to_string(),
        md5: None,
        size,
    }
}

fn on_disk(content: &[u8]) -> DiskFile {
    DiskFile {
        exists: true,
        size: Some(content.len() as u64),
        md5: Some(hex::encode(fast_md5::digest(content))),
    }
}

fn missing() -> DiskFile {
    DiskFile {
        exists: false,
        size: None,
        md5: None,
    }
}

fn field<'a>(json: &'a str, name: &str, out: &'a mut Option<serde_json::Value>) -> &'a str {
    *out = Some(serde_json::from_str(json).unwrap());
    out.as_ref().unwrap()[name].as_str().unwrap()
}

fn package(url: &str, md5: &str) -> PackageData {
    PackageData {
        url: url.to_string(),
        md5: md5.to_string(),
        size: 100,
        decompressed_size: 200,
        command: None,
        validation: vec![],
        pkg_version_file_name: None,
    }
}

fn plugin(id: &str, release: &str, version: &str, url: &str, md5: &str) -> PluginPackageInfo {
    PluginPackageInfo {
        plugin_id: id.to_string(),
        release_id: release.to_string(),
        version: version.to_string(),
        plugin_pkg: package(url, md5),
    }
}

fn game() -> GameRef {
    GameRef {
        id: "gopR6Cufr3".to_string(),
        biz: "hk4e_global".to_string(),
    }
}

#[test]
fn game_id_for_code_known() {
    assert_eq!(game_id_for_code("hk4e"), Some("gopR6Cufr3"));
}

#[test]
fn game_id_for_code_unknown() {
    assert_eq!(game_id_for_code("unknown"), None);
}

#[test]
fn game_id_for_code_bh3() {
    assert_eq!(game_id_for_code("bh3"), Some("bxPTXSET5t"));
}

#[test]
fn game_id_for_code_hkrpg() {
    assert_eq!(game_id_for_code("hkrpg"), Some("4ziysqXOQ8"));
}

#[test]
fn game_id_for_code_nap() {
    assert_eq!(game_id_for_code("nap"), Some("U5hbdsT9W7"));
}

#[test]
fn game_id_for_code_empty() {
    assert_eq!(game_id_for_code(""), None);
}

#[test]
fn parse_validation_empty_string() {
    let json = r#"{
        "url": "https://example.com/pkg.zip",
        "md5": "abc",
        "size": "100",
        "decompressed_size": "200",
        "command": null,
        "validation": "",
        "pkg_version_file_name": null
    }"#;
    let mut value = None;
    assert!(validation_is_empty(field(json, "validation", &mut value)));
}

#[test]
fn parse_validation_empty_array_string() {
    let json = r#"{
        "url": "https://example.com/pkg.zip",
        "md5": "abc",
        "size": "100",
        "decompressed_size": "200",
        "command": null,
        "validation": "[]",
        "pkg_version_file_name": null
    }"#;
    let mut value = None;
    assert!(validation_is_empty(field(json, "validation", &mut value)));
    assert!(!validation_is_empty("[{}]"));
}

#[test]
fn parse_str_to_u64_valid() {
    let json = r#"{
        "url": "https://example.com/pkg.zip",
        "md5": "abc",
        "size": "12345",
        "decompressed_size": "200",
        "command": null,
        "validation": "[]",
        "pkg_version_file_name": null
    }"#;
    let mut value = None;
    assert_eq!(parse_number(field(json, "size", &mut value)), Some(12345));
    assert_eq!(parse_number("12 345"), None);
}

#[test]
fn parse_optional_str_to_u64_some() {
    let json = r#"{"path":"f.dll","md5":"x","size":"999"}"#;
    let mut value = None;
    let size = field(json, "size", &mut value).to_string();
    assert_eq!(parse_listed_size(&Some(size)).unwrap(), Some(999));
}

#[test]
fn parse_optional_str_to_u64_empty() {
    let json = r#"{"path":"f.dll","md5":"x","size":""}"#;
    let mut value = None;
    let size = field(json, "size", &mut value).to_string();
    assert_eq!(parse_listed_size(&Some(size)).unwrap(), None);
    assert_eq!(parse_listed_size(&None).unwrap(), None);
    assert!(parse_listed_size(&Some("x".to_string())).is_err());
}

#[test]
fn dedup_non_adjacent_duplicate_plugin_ids() {
    // The same plugin in two releases, with another between them: the first one,
    // which is the newest, is kept.
    let resp = PluginApiResponse {
        retcode: 0,
        message: "OK".to_string(),
        plugin_releases: vec![
            PluginRelease {
                game: game(),
                plugins: vec![
                    plugin("p1", "r1", "2.0", "https://example.com/p1v2.zip", "abc"),
                    plugin("p2", "r2", "1.0", "https://example.com/p2.zip", "def"),
                ],
            },
            PluginRelease {
                game: game(),
                plugins: vec![plugin(
                    "p1",
                    "r3",
                    "1.0",
                    "https://example.com/p1v1.zip",
                    "ghi",
                )],
            },
        ],
    };
    let plugins = fetch_plugins(&resp).unwrap();
    assert_eq!(plugins.len(), 2);
    assert_eq!(plugins[0].plugin_id, "p1");
    assert_eq!(plugins[0].version, "2.0");
    assert_eq!(plugins[1].plugin_id, "p2");
}

#[test]
fn refused_listings_are_errors() {
    let resp = PluginApiResponse {
        retcode: -5,
        message: "no".to_string(),
        plugin_releases: vec![],
    };
    match fetch_plugins(&resp) {
        Err(SophonError::ApiError(code, text)) => {
            assert_eq!(code, -5);
            assert_eq!(text, "no");
        }
        other => panic!("unexpected {other:?}"),
    }
    let resp = SdkApiResponse {
        retcode: 7,
        message: "no".to_string(),
        game_channel_sdks: vec![],
    };
    assert!(matches!(
        fetch_channel_sdks(&resp),
        Err(SophonError::ApiError(7, _))
    ));
}

fn sdk(url: &str) -> ChannelSdkData {
    ChannelSdkData {
        game: game(),
        channel_sdk_pkg: package(url, "abc"),
        pkg_version_file_name: String::new(),
        version: "1.0".to_string(),
    }
}

#[test]
fn directx_setups_are_left_out() {
    assert!(is_directx_url("https://example.com/a/DXSETUP.zip"));
    assert!(!is_directx_url("https://example.com/a/gme.zip"));
    let resp = PluginApiResponse {
        retcode: 0,
        message: "OK".to_string(),
        plugin_releases: vec![PluginRelease {
            game: game(),
            plugins: vec![
                plugin("dx", "r", "1.0", "https://example.com/DXSetup_1.zip", "a"),
                plugin("p", "r", "1.0", "https://example.com/p.zip", "a"),
            ],
        }],
    };
    let plugins = fetch_plugins(&resp).unwrap();
    assert_eq!(plugins.len(), 1);
    assert_eq!(plugins[0].plugin_id, "p");
    let resp = SdkApiResponse {
        retcode: 0,
        message: "OK".to_string(),
        game_channel_sdks: vec![
            sdk("https://example.com/dxsetup.zip"),
            sdk("https://example.com/sdk.zip"),
        ],
    };
    let sdks = fetch_channel_sdks(&resp).unwrap();
    assert_eq!(sdks.len(), 1);
    assert_eq!(sdks[0].channel_sdk_pkg.url, "https://example.com/sdk.zip");
}

#[test]
fn addresses_of_listings() {
    let url = plugin_list_url("gopR6Cufr3");
    assert!(url.starts_with("https://sg-hyp-api.hoyoverse.com/hyp/hyp-connect/api/getGamePlugins?"));
    assert!(url.contains("launcher_id=VYTpXlbWo8"));
    assert!(url.contains("gopR6Cufr3"));
    assert!(sdk_list_url("x").contains("getGameChannelSDKs"));
}

#[test]
fn write_plugin_version_new_file() {
    let mut versions = TextMap::default();
    write_plugin_version(&mut versions, "plugin_abc_version", "1.0");
    assert_eq!(versions.get("plugin_abc_version"), Some(&"1.0".to_string()));
}

#[test]
fn write_plugin_version_update_existing() {
    let mut versions = TextMap::default();
    write_plugin_version(&mut versions, "plugin_abc_version", "1.0");
    write_plugin_version(&mut versions, "plugin_abc_version", "2.0");
    assert_eq!(versions.get("plugin_abc_version"), Some(&"2.0".to_string()));
}

#[test]
fn write_plugin_version_add_new_key() {
    let mut versions = TextMap::default();
    write_plugin_version(&mut versions, "plugin_abc_version", "1.0");
    write_plugin_version(&mut versions, "plugin_def_version", "2.0");
    assert_eq!(versions.len(), 2);
    assert_eq!(versions.get("plugin_abc_version"), Some(&"1.0".to_string()));
    assert_eq!(versions.get("plugin_def_version"), Some(&"2.0".to_string()));
}

#[test]
fn write_read_roundtrip() {
    let mut versions = TextMap::default();
    write_plugin_version(&mut versions, "plugin_abc_version", "3.0");
    let text = serde_json::to_string_pretty(&versions).unwrap();
    let versions: TextMap = serde_json::from_str(&text).unwrap();
    assert_eq!(versions.get("plugin_abc_version"), Some(&"3.0".to_string()));
}

#[test]
fn write_plugin_version_strips_newlines() {
    let mut versions = TextMap::default();
    let raw_version = "1.0\nmalicious";
    let safe_version = recorded_version(raw_version);
    assert_eq!(safe_version, "1.0malicious");
    write_plugin_version(&mut versions, "plugin_abc_version", &safe_version);
    assert_eq!(
        versions.get("plugin_abc_version"),
        Some(&"1.0malicious".to_string())
    );
}

#[test]
fn plugin_needs_update_version_mismatch() {
    let mut versions = TextMap::default();
    write_plugin_version(&mut versions, "plugin_abc_version", "1.0");
    assert!(plugin_needs_update(&versions, "abc", "2.0", &vec![], &vec![]));
}

#[test]
fn plugin_needs_update_version_match_files_ok() {
    let mut versions = TextMap::default();
    write_plugin_version(&mut versions, "plugin_abc_version", "1.0");
    let validation = vec![make_validation_entry("gme.dll", Some(12))];
    let files = vec![on_disk(b"test content")];
    assert!(!plugin_needs_update(&versions, "abc", "1.0", &validation, &files));
}

#[test]
fn plugin_needs_update_version_match_file_missing() {
    let mut versions = TextMap::default();
    write_plugin_version(&mut versions, "plugin_abc_version", "1.0");
    let validation = vec![make_validation_entry("missing.dll", Some(10))];
    let files = vec![missing()];
    assert!(plugin_needs_update(&versions, "abc", "1.0", &validation, &files));
}

#[test]
fn plugin_needs_update_no_version() {
    assert!(plugin_needs_update(
        &TextMap::default(),
        "abc",
        "1.0",
        &vec![],
        &vec![]
    ));
}

#[test]
fn verify_validation_all_present() {
    let validation = vec![make_validation_entry("gme.dll", Some(11))];
    assert!(verify_validation(&validation, &vec![on_disk(b"hello world")]));
}

#[test]
fn verify_validation_file_missing() {
    let validation = vec![make_validation_entry("absent.dll", Some(10))];
    assert!(!verify_validation(&validation, &vec![missing()]));
}

#[test]
fn verify_validation_file_wrong_size() {
    let validation = vec![make_validation_entry("gme.dll", Some(999))];
    assert!(!verify_validation(&validation, &vec![on_disk(b"hello")]));
}

#[test]
fn verify_validation_no_size_check() {
    let validation = vec![make_validation_entry("gme.dll", None)];
    assert!(verify_validation(&validation, &vec![on_disk(b"any content")]));
}

#[test]
fn listed_digests_are_compared() {
    let mut entry = make_validation_entry("gme.dll", None);
    entry.md5 = Some(hex::encode(fast_md5::digest(b"any content")));
    let validation = vec![entry];
    assert!(verify_validation(&validation, &vec![on_disk(b"any content")]));
    assert!(!verify_validation(&validation, &vec![on_disk(b"other")]));
}

#[test]
fn md5_comparison_case_insensitive() {
    let lower = hex::encode(fast_md5::digest(b"abc123"));
    let upper = lower.to_ascii_uppercase();
    assert_ne!(lower, upper);
    assert!(check_package("p", &lower, &b"abc123".to_vec()).is_ok());
    assert!(check_package("p", &upper, &b"abc123".to_vec()).is_ok());
    match check_package("p", &upper, &b"abc124".to_vec()) {
        Err(SophonError::Md5Mismatch { item, expected, actual }) => {
            assert_eq!(item, "p");
            assert_eq!(expected, upper);
            assert_eq!(actual, hex::encode(fast_md5::digest(b"abc124")));
        }
        other => panic!("unexpected {other:?}"),
    }
}

/// What is done with each entry of an archive, up to the first refusal.
fn steps_of(data: &Vec<u8>) -> Result<Vec<ZipStep>, SophonError> {
    let (count, mut budget) = begin_archive(data)?;
    (0..count).map(|i| budget.next_of(data, i)).collect()
}

fn zip_of(entries: &[(&str, bool, &[u8])]) -> Vec<u8> {
    let mut writer = ZipWriter::new(Cursor::new(Vec::new()));
    for (name, is_dir, content) in entries {
        if *is_dir {
            writer
                .add_directory(*name, SimpleFileOptions::default())
                .unwrap();
        } else {
            writer
                .start_file(*name, SimpleFileOptions::default())
                .unwrap();
            writer.write_all(content).unwrap();
        }
    }
    writer.finish().unwrap().into_inner()
}

#[test]
fn extract_zip_simple() {
    let data = zip_of(&[("hello.txt", false, b"hello world")]);
    let steps = steps_of(&data).unwrap();
    assert_eq!(steps.len(), 1);
    assert!(matches!(&steps[0], ZipStep::File { path, .. } if path == "hello.txt"));
    assert_eq!(content_of(&data, 0).unwrap(), b"hello world");
}

#[test]
fn extract_zip_with_subdirs() {
    let data = zip_of(&[
        ("subdir/", true, b""),
        ("subdir/nested.txt", false, b"nested content"),
    ]);
    let steps = steps_of(&data).unwrap();
    assert_eq!(steps.len(), 2);
    assert!(matches!(&steps[0], ZipStep::Directory { .. }));
    assert!(matches!(&steps[1], ZipStep::File { path, .. } if path == "subdir/nested.txt"));
    assert_eq!(content_of(&data, 1).unwrap(), b"nested content");
}

#[test]
fn extract_zip_empty() {
    assert!(steps_of(&zip_of(&[])).unwrap().is_empty());
}

#[test]
fn extract_zip_path_traversal_skipped() {
    let steps = steps_of(&zip_of(&[("../../../etc/passwd", false, b"malicious")])).unwrap();
    assert_eq!(steps.len(), 1);
    assert!(matches!(steps[0], ZipStep::Skip));
}

/// An archive whose single entry declares a size that is not its own.
fn forged_zip(declared_uncompressed: u32) -> Vec<u8> {
    let mut src: Vec<u8> = Vec::new();
    let fname = b"huge.bin";
    let payload: &[u8] = &[0xAB];
    let sizes = |out: &mut Vec<u8>| {
        out.extend(0u32.to_le_bytes());
        out.extend(1u32.to_le_bytes());
        out.extend(declared_uncompressed.to_le_bytes());
        out.extend((fname.len() as u16).to_le_bytes());
    };
    src.extend(0x04034b50u32.to_le_bytes());
    src.extend(20u16.to_le_bytes());
    src.extend([0u8; 8]);
    sizes(&mut src);
    src.extend(0u16.to_le_bytes());
    src.extend(fname);
    src.extend(payload);
    let directory = src.len() as u32;
    src.extend(0x02014b50u32.to_le_bytes());
    src.extend(20u16.to_le_bytes());
    src.extend(20u16.to_le_bytes());
    src.extend([0u8; 8]);
    sizes(&mut src);
    src.extend([0u8; 16]);
    src.extend(fname);
    let length = src.len() as u32 - directory;
    src.extend(0x06054b50u32.to_le_bytes());
    src.extend([0u8; 4]);
    src.extend(1u16.to_le_bytes());
    src.extend(1u16.to_le_bytes());
    src.extend(length.to_le_bytes());
    src.extend(directory.to_le_bytes());
    src.extend(0u16.to_le_bytes());
    src
}

#[test]
fn extract_zip_rejects_forged_oversized_entry() {
    let result = steps_of(&forged_zip(600 * 1024 * 1024));
    match result {
        Err(SophonError::Decompression(text)) => assert_eq!(
            text,
            "entry 'huge.bin' declares 629145600 bytes, exceeds per-entry limit of 536870912"
        ),
        other => panic!("archive with forged 600 MiB entry must be rejected: {other:?}"),
    }
}

#[test]
fn extract_zip_rejects_colon_entry() {
    let steps = steps_of(&zip_of(&[("safe/path:hidden", false, b"x")])).unwrap();
    assert!(matches!(steps[0], ZipStep::Skip));
}

fn entry(size: u64, compressed_size: u64) -> ArchiveEntry {
    ArchiveEntry {
        name: "a".to_string(),
        is_symlink: false,
        is_dir: false,
        size,
        compressed_size,
        enclosed: Some("a".to_string()),
        unix_mode: Some(0o100755),
    }
}

/// What an archive says of an entry comes from its bytes.
#[test]
fn archives_are_read_from_their_bytes() {
    let mut writer = ZipWriter::new(Cursor::new(Vec::new()));
    let options = SimpleFileOptions::default().unix_permissions(0o640);
    writer.start_file("a/b.bin", options).unwrap();
    writer.write_all(&[7u8; 3000]).unwrap();
    writer
        .add_symlink("link", "a/b.bin", SimpleFileOptions::default())
        .unwrap();
    let data = writer.finish().unwrap().into_inner();
    let (count, mut budget) = begin_archive(&data).unwrap();
    assert_eq!(count, 2);
    match budget.next_of(&data, 0).unwrap() {
        ZipStep::File { path, mode } => {
            assert_eq!(path, "a/b.bin");
            assert_eq!(mode, Some(0o640));
        }
        other => panic!("unexpected {other:?}"),
    }
    assert_eq!(budget.total, 3000);
    assert!(matches!(budget.next_of(&data, 1), Ok(ZipStep::Skip)));
    assert_eq!(budget.total, 3000);
    assert_eq!(content_of(&data, 0).unwrap(), vec![7u8; 3000]);
    match budget.next_of(&data, 2) {
        Err(SophonError::Decompression(text)) => assert!(!text.is_empty()),
        other => panic!("unexpected {other:?}"),
    }
    assert!(matches!(content_of(&data, 2), Err(SophonError::Io(_))));
    assert!(matches!(
        begin_archive(&b"no archive".to_vec()),
        Err(SophonError::Decompression(_))
    ));
}

#[test]
fn archives_stay_within_their_limits() {
    assert!(check_entry_count(ZIP_MAX_ENTRIES).is_ok());
    assert!(check_entry_count(ZIP_MAX_ENTRIES + 1).is_err());
    let mut budget = ZipBudget { total: 0 };
    assert!(budget.next_entry(&entry(1001, 1)).is_err());
    assert_eq!(budget.total, 0);
    match budget.next_entry(&entry(1000, 1)).unwrap() {
        ZipStep::File { path, mode } => {
            assert_eq!(path, "a");
            assert_eq!(mode, Some(0o755));
        }
        other => panic!("unexpected {other:?}"),
    }
    assert_eq!(budget.total, 1000);
    let mut budget = ZipBudget { total: 0 };
    for _ in 0..8 {
        let big = entry(ZIP_MAX_ENTRY_BYTES, ZIP_MAX_ENTRY_BYTES);
        assert!(budget.next_entry(&big).is_ok());
    }
    match budget.next_entry(&entry(1, 1)) {
        Err(SophonError::Decompression(text)) => {
            assert_eq!(text, "extracted size would exceed 4294967296 bytes")
        }
        other => panic!("unexpected {other:?}"),
    }
    let mut link = entry(1, 1);
    link.is_symlink = true;
    assert!(matches!(budget.next_entry(&link), Ok(ZipStep::Skip)));
}

#[test]
fn packages_are_fetched_where_they_are_needed() {
    assert_eq!(plugin_version_key("abc"), "plugin_abc_version");
    assert_eq!(archive_name("https://x/y/z.zip").unwrap(), "z.zip");
    assert!(matches!(
        archive_name("https://x/y/.."),
        Err(SophonError::PathTraversal(_))
    ));
    let p = plugin("abc", "r", "1.0", "https://x/abc.zip", "m");
    let mut versions = TextMap::default();
    assert_eq!(
        plugin_archive(&versions, &p, &vec![]).unwrap(),
        Some("abc.zip".to_string())
    );
    write_plugin_version(&mut versions, "plugin_abc_version", "1.0");
    assert_eq!(plugin_archive(&versions, &p, &vec![]).unwrap(), None);
    let s = sdk("https://x/sdk.zip");
    assert_eq!(
        sdk_archive(&versions, &s, &vec![]).unwrap(),
        Some("sdk.zip".to_string())
    );
    write_plugin_version(&mut versions, "plugin_sdk_version", "1.0");
    assert_eq!(sdk_archive(&versions, &s, &vec![]).unwrap(), None);
}

/// What was unpacked is recorded where it is sound and taken away where it is
/// not.
#[test]
fn unpacked_packages_are_recorded_or_undone() {
    let mut p = plugin("abc", "r", "1.0\n", "https://x/abc.zip", "m");
    match end_plugin(&p, &vec![]) {
        PackageEnd::Record { key, version } => {
            assert_eq!(key, "plugin_abc_version");
            assert_eq!(version, "1.0");
        }
        other => panic!("unexpected {other:?}"),
    }
    p.plugin_pkg.validation = vec![
        make_validation_entry("a.dll", Some(3)),
        make_validation_entry("../b.dll", None),
    ];
    match end_plugin(&p, &vec![on_disk(b"four"), missing()]) {
        PackageEnd::Undo { files, error } => {
            assert_eq!(files, vec!["a.dll".to_string()]);
            assert!(matches!(error, SophonError::PluginValidationFailed(_)));
        }
        other => panic!("unexpected {other:?}"),
    }
    assert_eq!(
        files_to_take_away(&p.plugin_pkg.validation),
        vec!["a.dll".to_string()]
    );
    match end_sdk(&sdk("https://x/sdk.zip"), &vec![]) {
        PackageEnd::Record { key, .. } => assert_eq!(key, "plugin_sdk_version"),
        other => panic!("unexpected {other:?}"),
    }
}
