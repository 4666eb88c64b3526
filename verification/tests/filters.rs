use irmin::game_installer::asset_filter::{
    contains_ignore_ascii_case, filter_patch_assets_for_removed_features, ignored_lang_dirs,
    is_hk4e_pkg_version, looks_like_nap, read_blacklist, read_hk4e_installed_langs,
    read_removed_features, FilterCache, FilterRecords, LangFile,
};
use irmin::game_installer::audio_record::add_to_record;
use irmin::game_installer::file_io::{after_copy, extended_len, next_copy, CopyStep};
use irmin::game_installer::hsr_filter::{
    filter_hsr_asset_list, locale_code_to_audio_lang_name, write_audio_lang_record,
};
use irmin::game_installer::nap_filter::{
    filter_nap_asset_list, locale_code_to_abbrev_lang_name,
    locale_code_to_audio_lang_name as launcher_lang_name, write_nap_audio_lang_records,
};
use irmin::game_installer::preinstall_plan::{PatchAssetInfo, PatchMethod};
use irmin::game_installer::profiling::{AssemblyTimer, ChunkPhase, ChunkTimer, PipelineProfiler};
use irmin::proto_parse::SophonManifestAssetProperty;
use irmin::strings::{readable_lines, trimmed_lines};

fn strings(list: &[&str]) -> Vec<String> {
    list.iter().map(|s| s.to_string()).collect()
}

fn asset(name: &str) -> SophonManifestAssetProperty {
    SophonManifestAssetProperty {
        asset_name: name.to_string(),
        asset_chunks: vec![],
        asset_type: 0,
        asset_size: 0,
        asset_hash_md5: String::new(),
    }
}

fn names(assets: &[SophonManifestAssetProperty]) -> Vec<&str> {
    assets.iter().map(|a| a.asset_name.as_str()).collect()
}

#[test]
fn removed_features_are_tokens() {
    assert_eq!(
        read_removed_features("cutscenes|design"),
        Some(strings(&["cutscenes", "design"]))
    );
    assert_eq!(read_removed_features(""), None);
}

#[test]
fn games_are_told_by_their_directories() {
    assert!(looks_like_nap("/games/x", true));
    assert!(looks_like_nap("/games/ZenlessZoneZero", false));
    assert!(!looks_like_nap("/games/x", false));
}

#[test]
fn blacklists_name_both_counterparts() {
    let list = read_blacklist(
        "{\"fileName\":\"StarRail_Data/StreamingAssets/Audio/A.pak\"}\n{\"other\":1}\n",
    )
    .unwrap();
    assert!(list.contains(&"starrail_data/streamingassets/audio/a.pak".to_string()));
    assert!(list.contains(&"starrail_data/persistent/audio/a.pak".to_string()));
    assert_eq!(read_blacklist("nothing"), None);
}

#[test]
fn languages_that_are_not_installed_are_ignored() {
    let files = vec![LangFile {
        name: "audio_lang_14".to_string(),
        content: Some("English(US)\r\nJapanese\n\n".to_string()),
    }];
    let langs = read_hk4e_installed_langs(&files);
    assert_eq!(langs, strings(&["English(US)", "Japanese"]));
    let dirs = ignored_lang_dirs(&langs);
    assert_eq!(dirs, strings(&["/chinese/", "/korean/"]));
    assert_eq!(read_hk4e_installed_langs(&vec![]), strings(&["English(US)"]));
}

#[test]
fn patterns_are_found_in_any_case() {
    assert!(contains_ignore_ascii_case("Audio/JAPANESE/x", "japanese"));
    assert!(!contains_ignore_ascii_case("Audio/Japan", "japanese"));
    assert!(is_hk4e_pkg_version("pkg_version"));
    assert!(!is_hk4e_pkg_version("data/other"));
}

fn target(field: &str) -> PatchAssetInfo {
    PatchAssetInfo {
        target_file_path: "a".to_string(),
        target_file_size: 1,
        target_file_hash: String::new(),
        patch_method: PatchMethod::Patch,
        patch_name: String::new(),
        patch_hash: String::new(),
        patch_offset: 0,
        patch_size: 0,
        patch_chunk_length: 0,
        original_file_path: None,
        original_file_hash: None,
        original_file_size: None,
        matching_field: field.to_string(),
    }
}

fn records(has_nap_dir: bool) -> FilterRecords {
    FilterRecords {
        game_dir: "/games/game".to_string(),
        has_nap_dir,
        has_hkrpg_dir: false,
        has_hk4e_dir: false,
        kdel_resource: Some("cutscenes".to_string()),
        download_blacklist: Some("{\"fileName\":\"a\"}".to_string()),
        lang_files: vec![],
    }
}

/// The records of a game count only where the game is.
#[test]
fn records_of_other_games_do_not_count() {
    let cache = FilterCache::new(&records(false));
    let mut assets = vec![target("cutscenes"), target("game")];
    filter_patch_assets_for_removed_features(&cache, &mut assets);
    assert_eq!(assets[0].patch_method, PatchMethod::Patch);
    assert_eq!(assets[1].patch_method, PatchMethod::Patch);
}

#[test]
fn filtering_twice_changes_nothing() {
    let cache = FilterCache::new(&records(true));
    let mut assets = vec![target("cutscenes"), target("game")];
    filter_patch_assets_for_removed_features(&cache, &mut assets);
    filter_patch_assets_for_removed_features(&cache, &mut assets);
    assert_eq!(assets[0].patch_method, PatchMethod::Skip);
    assert_eq!(assets[1].patch_method, PatchMethod::Patch);
}

#[test]
fn blacklisted_files_are_not_installed() {
    let assets = vec![
        asset("StarRail_Data/StreamingAssets/Audio/a.pak"),
        asset("StarRail_Data/Persistent/Audio/b.pak"),
        asset("c.pak"),
    ];
    let lines = strings(&[
        "{\"fileName\":\"StarRail_Data/Persistent/Audio/a.pak\"}",
        "{\"fileName\":\"StarRail_Data/StreamingAssets/Audio/B.pak\"}",
    ]);
    let kept = filter_hsr_asset_list(Some(&lines), assets);
    assert_eq!(names(&kept), vec!["c.pak"]);
    let kept = filter_hsr_asset_list(None, vec![asset("a"), asset("b")]);
    assert_eq!(names(&kept), vec!["a", "b"]);
}

#[test]
fn nothing_is_taken_out_by_removal_records() {
    let kept = filter_nap_asset_list(vec![
        asset("ZenlessZoneZero_Data/Persistent/KDelResource"),
        asset("data"),
    ]);
    assert_eq!(
        names(&kept),
        vec!["ZenlessZoneZero_Data/Persistent/KDelResource", "data"]
    );
}

#[test]
fn every_supported_voice_language_is_recorded() {
    let locales = ["en-us", "zh-cn", "zh-tw", "ko-kr", "ja-jp"];
    let short = ["En", "Cn", "Cn", "Kr", "Jp"];
    let long = ["English(US)", "Chinese", "Chinese", "Korean", "Japanese"];
    for i in 0..locales.len() {
        assert_eq!(locale_code_to_abbrev_lang_name(locales[i]), Some(short[i]));
        assert_eq!(launcher_lang_name(locales[i]), Some(long[i]));
        assert_eq!(locale_code_to_audio_lang_name(locales[i]), Some(long[i]));
    }
    assert_eq!(locale_code_to_abbrev_lang_name("de-de"), None);
    let (launcher, game) = write_nap_audio_lang_records(None, None, &strings(&["zh-tw"]));
    assert_eq!(launcher, "Chinese\n");
    assert_eq!(game, "Cn\n");
}

#[test]
fn languages_are_recorded_once() {
    assert_eq!(locale_code_to_audio_lang_name("en"), Some("English(US)"));
    assert_eq!(locale_code_to_abbrev_lang_name("jp"), Some("Jp"));
    let text = write_audio_lang_record(None, &strings(&["en"]));
    let again = write_audio_lang_record(Some(&text), &strings(&["en"]));
    assert_eq!(text, again);
    let more = write_audio_lang_record(Some(&text), &strings(&["jp"]));
    assert_eq!(more, "English(US)\nJapanese\n");
    let (launcher, game) = write_nap_audio_lang_records(None, None, &strings(&["en", "jp"]));
    assert_eq!(launcher, "English(US)\nJapanese\n");
    assert_eq!(game, "En\nJp\n");
    assert_eq!(add_to_record(Some("a\nb"), &strings(&["b", "c"])), "a\nb\nc\n");
}

#[test]
fn copies_go_on_to_their_end() {
    assert_eq!(next_copy(100, 40), Some(60));
    assert_eq!(next_copy(100, 100), None);
    assert_eq!(after_copy(40, 10), CopyStep::Copied(50));
    assert_eq!(after_copy(40, 0), CopyStep::Ended);
    assert_eq!(after_copy(40, -1), CopyStep::Failed);
    assert_eq!(extended_len(10, 20), Some(20));
    assert_eq!(extended_len(20, 10), None);
}

#[test]
fn downloads_are_counted_out_again() {
    let mut profiler = PipelineProfiler::new(true, 0);
    let mut timer = ChunkTimer::new(&mut profiler, 5);
    assert_eq!(profiler.report(2_000_000_000), None);
    assert_eq!(profiler.active_downloads, 1);
    timer.record_phase(&mut profiler, ChunkPhase::Download, 105);
    assert_eq!(profiler.peak_active_downloads, 1);
    assert_eq!(profiler.download_ns, 100);
    timer.finish(&mut profiler, 64, true);
    assert_eq!(profiler.active_downloads, 0);
    profiler.record_idle(7);
    let assembly = AssemblyTimer::new(10);
    assembly.record_write_time(&mut profiler, 3);
    assembly.finish(&mut profiler, 30);
    assert_eq!(profiler.assembly_total_ns, 20);
    let window = profiler.report(2_000_000_000).unwrap();
    assert_eq!(window.window_bytes, 64);
    assert_eq!(window.window_idle, 7);
    assert_eq!(window.number, 2);
    assert_eq!(profiler.window_bytes, 0);
    let mut plain = PipelineProfiler::new(false, 0);
    plain.record_idle(7);
    assert_eq!(plain.idle_ns, 0);
    assert_eq!(plain.report(2_000_000_000), None);
}

#[test]
fn unreadable_lines_are_left_out() {
    let content = b"one\ntwo \xff\n\xc3\xa9\n".to_vec();
    assert_eq!(readable_lines(&content), vec!["one", "\u{e9}", ""]);
    assert_eq!(readable_lines(&vec![]), vec![""]);
}

#[test]
fn white_space_is_that_of_unicode() {
    let spaces = [
        '\t', '\u{b}', '\u{c}', '\r', ' ', '\u{85}', '\u{a0}', '\u{1680}', '\u{2000}', '\u{200a}',
        '\u{2028}', '\u{2029}', '\u{202f}', '\u{205f}', '\u{3000}',
    ];
    for c in (0..0x11_0000u32).filter_map(char::from_u32) {
        let blank = trimmed_lines(&c.to_string()).is_empty();
        assert_eq!(blank, c.is_whitespace(), "{c:?}");
    }
    for c in spaces {
        assert_eq!(trimmed_lines(&format!("{c}x{c}")), vec!["x"]);
    }
}
